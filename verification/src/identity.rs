use vstd::prelude::*;

verus! {

/// An ASCII letter of either case or an ASCII digit.
pub open spec fn is_alphanumeric(b: u8) -> bool {
    48 <= b <= 57 || 65 <= b <= 90 || 97 <= b <= 122
}

/// The tag that this client's peer ids start with.
pub open spec fn client_tag() -> Seq<u8> {
    seq![45u8, 65u8, 89u8, 48u8, 48u8, 48u8, 49u8, 45u8]
}

/// `Rng::sample` of the crate `rand` with the distribution `Standard`, on
/// the thread's generator: one byte, any byte.
#[verifier::external_body]
fn random_byte() -> (b: u8) {
    rand::Rng::sample(&mut rand::thread_rng(), rand::distributions::Standard)
}

/// `Rng::sample` of the crate `rand` with the distribution `Alphanumeric`,
/// on the thread's generator: one byte out of the ASCII letters and
/// digits.
#[verifier::external_body]
fn random_alphanumeric() -> (b: u8)
    ensures
        is_alphanumeric(b),
{
    rand::Rng::sample(&mut rand::thread_rng(), rand::distributions::Alphanumeric)
}

/// Makes a peer id of twenty random bytes.
pub fn generate_peer_id() -> (id: Vec<u8>)
    ensures
        id@.len() == 20,
{
    let mut id: Vec<u8> = Vec::new();
    let mut i: usize = 0;
    while i < 20
        invariant
            i <= 20,
            id@.len() == i,
        decreases 20 - i,
    {
        id.push(random_byte());
        i = i + 1;
    }
    id
}

/// Makes a peer id in the customary readable form: the client's tag and
/// twelve random letters and digits.
pub fn generate_tagged_peer_id() -> (id: Vec<u8>)
    ensures
        id@.len() == 20,
        id@.subrange(0, 8) == client_tag(),
        forall|i: int| 8 <= i < 20 ==> is_alphanumeric(#[trigger] id@[i]),
{
    let mut id: Vec<u8> = Vec::new();
    id.push(45);
    id.push(65);
    id.push(89);
    id.push(48);
    id.push(48);
    id.push(48);
    id.push(49);
    id.push(45);
    assert(id@ =~= client_tag());
    let mut i: usize = 8;
    while i < 20
        invariant
            8 <= i <= 20,
            id@.len() == i,
            id@.subrange(0, 8) == client_tag(),
            forall|j: int| 8 <= j < i ==> is_alphanumeric(#[trigger] id@[j]),
        decreases 20 - i,
    {
        let ghost before = id@;
        id.push(random_alphanumeric());
        assert(id@.subrange(0, 8) =~= before.subrange(0, 8));
        i = i + 1;
    }
    id
}

} // verus!
