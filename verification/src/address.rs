use vstd::prelude::*;
use vstd::string::StringSliceAdditionalSpecFns;
use vstd::std_specs::cmp::PartialEqSpecImpl;
use vstd::std_specs::convert::FromSpecImpl;

verus! {

/// The address of a record in the content-addressed store, or of an agent.
///
/// Two addresses are the same address when their texts are equal; the view of
/// an address is its text.
#[derive(Debug, Eq, Hash)]
pub struct Address(pub String);

impl View for Address {
    type V = Seq<char>;

    open spec fn view(&self) -> Seq<char> {
        self.0@
    }
}

impl PartialEq for Address {
    fn eq(&self, other: &Address) -> (same: bool) {
        self.0 == other.0
    }
}

impl PartialEqSpecImpl for Address {
    open spec fn obeys_eq_spec() -> bool {
        true
    }

    open spec fn eq_spec(&self, other: &Address) -> bool {
        self@ == other@
    }
}

impl Clone for Address {
    fn clone(&self) -> (copy: Address)
        ensures
            copy@ == self@,
    {
        Address(self.0.clone())
    }
}

impl From<String> for Address {
    fn from(text: String) -> (address: Address)
        ensures
            address@ == text@,
    {
        Address(text)
    }
}

impl FromSpecImpl<String> for Address {
    open spec fn obeys_from_spec() -> bool {
        true
    }

    open spec fn from_spec(text: String) -> Address {
        Address(text)
    }
}

impl<'a> From<&'a str> for Address {
    fn from(text: &'a str) -> (address: Address)
        ensures
            address@ == text@,
    {
        Address(text.to_owned())
    }
}

impl<'a> FromSpecImpl<&'a str> for Address {
    /// The address made from a slice is told by its text, which the
    /// contract of `from` gives; no value of the specification stands for it.
    open spec fn obeys_from_spec() -> bool {
        false
    }

    open spec fn from_spec(text: &'a str) -> Address {
        arbitrary()
    }
}

impl Address {
    /// The address with the given text.
    pub fn new(text: &str) -> (address: Address)
        ensures
            address@ == text@,
    {
        Address(text.to_owned())
    }

    /// The text of the address.
    pub fn as_str(&self) -> (text: &str)
        ensures
            text@ == self@,
    {
        self.0.as_str()
    }
}

/// Whether `needle` is one of `addresses`.
pub fn contains_address(addresses: &Vec<Address>, needle: &Address) -> (found: bool)
    ensures
        found == texts(addresses@).contains(needle@),
{
    let mut i: usize = 0;
    while i < addresses.len()
        invariant
            i <= addresses.len(),
            forall|k: int| 0 <= k < i ==> addresses@[k]@ != needle@,
        decreases addresses.len() - i,
    {
        if addresses[i] == *needle {
            assert(texts(addresses@)[i as int] == needle@);
            return true;
        }
        i = i + 1;
    }
    false
}

/// The texts of a sequence of addresses, in order.
pub open spec fn texts(addresses: Seq<Address>) -> Seq<Seq<char>> {
    Seq::new(addresses.len(), |k: int| addresses[k]@)
}

/// Whether `bytes` are the bytes of a text of `length` bytes that begins
/// with the two bytes `first` and `second`.
pub open spec fn has_shape(bytes: Seq<u8>, first: u8, second: u8, length: int) -> bool {
    bytes.len() == length && length >= 2 && bytes[0] == first && bytes[1] == second
}

/// Whether `s` has the shape of the address of a record: 46 bytes that begin
/// with `Qm`.
pub fn is_hash(s: &str) -> (yes: bool)
    ensures
        yes == has_shape(s.spec_bytes(), 0x51, 0x6d, 46),
{
    let bytes = s.as_bytes();
    bytes.len() == 46 && bytes[0] == 0x51 && bytes[1] == 0x6d
}

/// Whether `s` has the shape of the address of an agent: 63 bytes that begin
/// with `Hc`.
pub fn is_agent_addr(s: &str) -> (yes: bool)
    ensures
        yes == has_shape(s.spec_bytes(), 0x48, 0x63, 63),
{
    let bytes = s.as_bytes();
    bytes.len() == 63 && bytes[0] == 0x48 && bytes[1] == 0x63
}

} // verus!
