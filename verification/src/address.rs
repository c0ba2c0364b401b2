//! Account addresses.
use vstd::prelude::*;

verus! {

/// The address of an account: twenty bytes.
#[derive(Clone, Copy, Debug)]
pub struct Address(pub [u8; 20]);

/// An address is seen as its bytes.
impl View for Address {
    type V = Seq<u8>;

    open spec fn view(&self) -> Seq<u8> {
        self.0@
    }
}

/// An address is seen as its twenty bytes, each at its place, so that different addresses are seen
/// as different.
pub proof fn law_address_is_its_bytes(address: Address, other: Address)
    ensures
        address@.len() == 20,
        forall|i: int| 0 <= i < 20 ==> address@[i] == #[trigger] address.0[i],
        address@ == other@ ==> forall|i: int| 0 <= i < 20 ==> #[trigger] address.0[i] == other.0[i],
{
    assert(address.0@.len() == 20);
    if address@ == other@ {
        assert forall|i: int| 0 <= i < 20 implies #[trigger] address.0[i] == other.0[i] by {
            assert(address@[i] == other@[i]);
        }
    }
}

} // verus!
