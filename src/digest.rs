use sha2::Digest;
use vstd::prelude::*;
use vstd::string::*;

verus! {

/// The SHA-512 hash of a byte sequence, as the 64 bytes that `sha2` computes.
pub uninterp spec fn sha512_of(data: Seq<u8>) -> Seq<u8>;

/// A `sha2::Sha512` hasher. Verus does not take a declaration of that type
/// (an alias of a generic wrapper), so it is held opaque here.
#[verifier::external_body]
pub struct Sha512Stream {
    inner: sha2::Sha512,
}

/// The bytes fed so far to a SHA-512 hasher, in order.
pub uninterp spec fn fed_of(h: Sha512Stream) -> Seq<u8>;

/// Relies on `sha2::Sha512::new` (through `digest::Digest::new`): a hasher
/// that has been fed nothing.
#[verifier::external_body]
fn hasher_new() -> (r: Sha512Stream)
    ensures
        fed_of(r) == Seq::<u8>::empty(),
{
    Sha512Stream { inner: sha2::Sha512::new() }
}

/// Relies on `digest::Digest::update` for `sha2::Sha512`: feeds one more
/// chunk after the bytes fed before.
#[verifier::external_body]
fn hasher_update(h: &mut Sha512Stream, chunk: &[u8])
    ensures
        fed_of(*final(h)) == fed_of(*old(h)) + chunk@,
{
    h.inner.update(chunk)
}

/// Relies on `digest::Digest::finalize` for `sha2::Sha512`: the 64-byte
/// SHA-512 hash of all the bytes fed, whatever the chunks were.
#[verifier::external_body]
fn hasher_finish(h: Sha512Stream) -> (r: Vec<u8>)
    ensures
        r@ == sha512_of(fed_of(h)),
        r@.len() == 64,
{
    h.inner.finalize().to_vec()
}

/// The lowercase hexadecimal digit for a value below 16.
pub open spec fn hex_char(n: int) -> char {
    if n < 10 {
        (n + 48) as char
    } else {
        (n + 87) as char
    }
}

/// Lowercase hexadecimal rendering of bytes: two digits per byte, high nibble first.
pub open spec fn hex_of(b: Seq<u8>) -> Seq<char> {
    Seq::new(
        2 * b.len(),
        |k: int|
            if k % 2 == 0 {
                hex_char(b[k / 2] as int / 16)
            } else {
                hex_char(b[k / 2] as int % 16)
            },
    )
}

/// The digest of a file's content: its SHA-512 hash in lowercase hex.
pub open spec fn digest_of(content: Seq<u8>) -> Seq<char> {
    hex_of(sha512_of(content))
}

fn hex_digit(n: u8) -> (r: &'static str)
    requires
        n < 16,
    ensures
        r@ == seq![hex_char(n as int)],
{
    let digits: &'static str = "0123456789abcdef";
    proof {
        reveal_strlit("0123456789abcdef");
    }
    let r = digits.substring_char(n as usize, n as usize + 1);
    assert(r@ =~= seq![hex_char(n as int)]);
    r
}

/// Renders bytes as lowercase hexadecimal text.
pub fn to_lower_hex(b: &[u8]) -> (r: String)
    ensures
        r@ == hex_of(b@),
{
    let mut s = String::new();
    let mut i: usize = 0;
    while i < b.len()
        invariant
            i <= b@.len(),
            s@ =~= hex_of(b@.subrange(0, i as int)),
        decreases b@.len() - i,
    {
        let x = b[i];
        let hi = hex_digit(x / 16);
        let lo = hex_digit(x % 16);
        s.append(hi);
        s.append(lo);
        i = i + 1;
        assert(s@ =~= hex_of(b@.subrange(0, i as int)));
    }
    assert(b@.subrange(0, b@.len() as int) =~= b@);
    s
}

/// A digest computed over content fed in chunks, so that a file never has
/// to be held in memory whole.
pub struct DigestStream {
    hasher: Sha512Stream,
}

impl DigestStream {
    /// The bytes fed so far.
    pub closed spec fn fed(&self) -> Seq<u8> {
        fed_of(self.hasher)
    }

    /// A stream that has been fed nothing.
    pub fn new() -> (r: DigestStream)
        ensures
            r.fed() == Seq::<u8>::empty(),
    {
        DigestStream { hasher: hasher_new() }
    }

    /// Feeds the next chunk of content.
    pub fn update(&mut self, chunk: &[u8])
        ensures
            final(self).fed() == old(self).fed() + chunk@,
    {
        hasher_update(&mut self.hasher, chunk);
    }

    /// The digest of everything fed: 128 lowercase hex characters.
    pub fn finish(self) -> (r: String)
        ensures
            r@ == digest_of(self.fed()),
            r@.len() == 128,
    {
        let h = hasher_finish(self.hasher);
        to_lower_hex(h.as_slice())
    }
}

/// The digest of some content held in memory.
pub fn content_digest(content: &[u8]) -> (r: String)
    ensures
        r@ == digest_of(content@),
        r@.len() == 128,
{
    let mut s = DigestStream::new();
    s.update(content);
    assert(s.fed() =~= content@);
    s.finish()
}

proof fn lemma_hex_char_injective(x: int, y: int)
    requires
        0 <= x < 16,
        0 <= y < 16,
        hex_char(x) == hex_char(y),
    ensures
        x == y,
{
}

/// Hex rendering loses nothing: two byte sequences with the same rendering are equal.
pub proof fn lemma_hex_injective(a: Seq<u8>, b: Seq<u8>)
    requires
        hex_of(a) == hex_of(b),
    ensures
        a == b,
{
    assert(hex_of(a).len() == 2 * a.len());
    assert(hex_of(b).len() == 2 * b.len());
    assert(a.len() == b.len());
    assert forall|k: int| 0 <= k < a.len() implies a[k] == b[k] by {
        assert((2 * k) / 2 == k && (2 * k) % 2 == 0);
        assert((2 * k + 1) / 2 == k && (2 * k + 1) % 2 == 1);
        assert(hex_of(a)[2 * k] == hex_char(a[k] as int / 16));
        assert(hex_of(b)[2 * k] == hex_char(b[k] as int / 16));
        assert(hex_of(a)[2 * k + 1] == hex_char(a[k] as int % 16));
        assert(hex_of(b)[2 * k + 1] == hex_char(b[k] as int % 16));
        lemma_hex_char_injective(a[k] as int / 16, b[k] as int / 16);
        lemma_hex_char_injective(a[k] as int % 16, b[k] as int % 16);
    }
    assert(a =~= b);
}

/// Files with the same bytes get the same digest, and two digests are equal
/// exactly when the underlying SHA-512 hashes are equal.
pub proof fn lemma_digest_deterministic(c1: Seq<u8>, c2: Seq<u8>)
    ensures
        c1 == c2 ==> digest_of(c1) == digest_of(c2),
        digest_of(c1) == digest_of(c2) <==> sha512_of(c1) == sha512_of(c2),
{
    if digest_of(c1) == digest_of(c2) {
        lemma_hex_injective(sha512_of(c1), sha512_of(c2));
    }
}

} // verus!
