//! Content identifiers and their canonical names, `"{tag}-{HEX}"`.
use vstd::prelude::*;
use vstd::string::*;

verus! {

/// Relies on `String::push`: it appends one character.
#[verifier::external_body]
pub(crate) fn push_char(s: &mut String, c: char)
    ensures
        final(s)@ == old(s)@.push(c),
{
    s.push(c)
}

/// The uppercase hexadecimal digit of a value below sixteen.
pub open spec fn hex_digit(n: u8) -> char {
    if n < 10 {
        (n + 48) as char
    } else {
        (n + 55) as char
    }
}

/// Two uppercase hexadecimal digits per byte, high nibble first.
pub open spec fn hex_upper(b: Seq<u8>) -> Seq<char> {
    Seq::new(
        2 * b.len(),
        |i: int|
            if i % 2 == 0 {
                hex_digit(b[i / 2] / 16)
            } else {
                hex_digit(b[i / 2] % 16)
            },
    )
}

pub open spec fn is_upper_hex_char(c: char) -> bool {
    ('0' <= c && c <= '9') || ('A' <= c && c <= 'F')
}

/// The value of an uppercase hexadecimal digit.
pub open spec fn hex_value(c: char) -> u8 {
    if '0' <= c && c <= '9' {
        (c as u32 - 48) as u8
    } else {
        (c as u32 - 55) as u8
    }
}

/// The bytes that a string of uppercase hexadecimal digit pairs stands for.
pub open spec fn hex_decode(h: Seq<char>) -> Seq<u8> {
    Seq::new(h.len() / 2, |i: int| (hex_value(h[2 * i]) * 16 + hex_value(h[2 * i + 1])) as u8)
}

/// The canonical name of an object: the tag, a dash, and the digest in uppercase hex.
pub open spec fn canonical_name(tag: Seq<char>, digest: Seq<u8>) -> Seq<char> {
    tag + seq!['-'] + hex_upper(digest)
}

/// The shape `^[^-]+-[0-9A-F]+$`.
pub open spec fn is_canonical_shape(s: Seq<char>) -> bool {
    exists|k: int|
        #![trigger s[k]]
        0 < k < s.len() - 1 && s[k] == '-' && (forall|i: int| 0 <= i < k ==> s[i] != '-') && (
        forall|i: int| k < i < s.len() ==> is_upper_hex_char(s[i]))
}

/// `k` is the position of the first dash of `s`.
pub open spec fn is_first_dash(s: Seq<char>, k: int) -> bool {
    0 <= k < s.len() && s[k] == '-' && forall|i: int| 0 <= i < k ==> s[i] != '-'
}

/// A non-empty, even-length run of uppercase hexadecimal digits.
pub open spec fn is_hex_digest(h: Seq<char>) -> bool {
    h.len() > 0 && h.len() % 2 == 0 && forall|i: int| 0 <= i < h.len() ==> is_upper_hex_char(h[i])
}

/// What a canonical name reads back as: the tag before the first dash and the
/// digest after it, where the tag is non-empty and the rest is a hex digest.
pub open spec fn parse_canonical(s: Seq<char>) -> Option<(Seq<char>, Seq<u8>)> {
    if exists|k: int| is_first_dash(s, k) {
        let k = choose|k: int| is_first_dash(s, k);
        if k > 0 && is_hex_digest(s.skip(k + 1)) {
            Some((s.take(k), hex_decode(s.skip(k + 1))))
        } else {
            None
        }
    } else {
        None
    }
}

/// A reference to one content object: an algorithm tag and a digest.
/// The tag `S2` designates SHA-256.
#[derive(Debug)]
pub struct SingleHashIdentifier {
    pub typ: String,
    pub hash: Vec<u8>,
}

impl SingleHashIdentifier {
    pub open spec fn name(&self) -> Seq<char> {
        canonical_name(self.typ@, self.hash@)
    }

    pub fn new(typ: String, hash: Vec<u8>) -> (r: SingleHashIdentifier)
        ensures
            r.typ@ == typ@,
            r.hash@ == hash@,
    {
        SingleHashIdentifier { typ, hash }
    }

    /// The canonical on-disk name of the object.
    pub fn to_string(&self) -> (r: String)
        ensures
            r@ == self.name(),
    {
        let mut s = self.typ.clone();
        push_char(&mut s, '-');
        let h = encode_upper(&self.hash);
        s.append(h.as_str());
        s
    }
}

/// Relies on `hex::encode_upper`: two uppercase digits per byte, high nibble first.
#[verifier::external_body]
pub(crate) fn encode_upper(b: &Vec<u8>) -> (r: String)
    ensures
        r@ == hex_upper(b@),
{
    hex::encode_upper(b)
}

fn is_upper_hex(c: char) -> (r: bool)
    ensures
        r == is_upper_hex_char(c),
{
    ('0' <= c && c <= '9') || ('A' <= c && c <= 'F')
}

fn hex_val(c: char) -> (r: u8)
    requires
        is_upper_hex_char(c),
    ensures
        r == hex_value(c),
        r < 16,
{
    if '0' <= c && c <= '9' {
        (c as u32 - 48) as u8
    } else {
        (c as u32 - 55) as u8
    }
}

proof fn lemma_hex_digit(n: u8)
    requires
        n < 16,
    ensures
        is_upper_hex_char(hex_digit(n)),
        hex_value(hex_digit(n)) == n,
        hex_digit(n) != '-',
{
}

proof fn lemma_hex_upper_digits(b: Seq<u8>)
    ensures
        forall|i: int| 0 <= i < hex_upper(b).len() ==> is_upper_hex_char(#[trigger] hex_upper(b)[i]),
        hex_decode(hex_upper(b)) == b,
{
    let h = hex_upper(b);
    assert forall|i: int| 0 <= i < h.len() implies is_upper_hex_char(#[trigger] h[i]) by {
        lemma_hex_digit(b[i / 2] / 16);
        lemma_hex_digit(b[i / 2] % 16);
    }
    assert forall|i: int| 0 <= i < b.len() implies hex_decode(h)[i] == b[i] by {
        lemma_hex_digit(b[i] / 16);
        lemma_hex_digit(b[i] % 16);
        assert(h[2 * i] == hex_digit(b[(2 * i) / 2] / 16));
        assert(h[2 * i + 1] == hex_digit(b[(2 * i + 1) / 2] % 16));
        assert((2 * i) / 2 == i && (2 * i + 1) / 2 == i);
    }
    assert(hex_decode(h) =~= b);
}

/// A canonical name has the shape `^[^-]+-[0-9A-F]+$` and reads back as the
/// tag and digest it was made from, whenever the tag is non-empty and free of
/// dashes and the digest is non-empty.
pub proof fn lemma_canonical_round_trip(tag: Seq<char>, digest: Seq<u8>)
    requires
        tag.len() > 0,
        digest.len() > 0,
        forall|i: int| 0 <= i < tag.len() ==> tag[i] != '-',
    ensures
        is_canonical_shape(canonical_name(tag, digest)),
        parse_canonical(canonical_name(tag, digest)) == Some((tag, digest)),
{
    let s = canonical_name(tag, digest);
    let k = tag.len() as int;
    lemma_hex_upper_digits(digest);
    assert(s[k] == '-');
    assert(s.skip(k + 1) =~= hex_upper(digest));
    assert(s.take(k) =~= tag);
    assert forall|i: int| k < i < s.len() implies is_upper_hex_char(s[i]) by {
        assert(s[i] == hex_upper(digest)[i - k - 1]);
    }
    assert(is_first_dash(s, k));
    let c = choose|j: int| is_first_dash(s, j);
    assert(c == k) by {
        if c < k {
            assert(s[c] == tag[c]);
        } else if c > k {
            assert(s[k] != '-');
        }
    }
    assert(is_hex_digest(s.skip(k + 1)));
}

/// Reads a canonical name back into its tag and digest.
pub fn parse_identifier(s: &str) -> (r: Option<SingleHashIdentifier>)
    ensures
        match parse_canonical(s@) {
            Some((t, d)) => r matches Some(id) && id.typ@ == t && id.hash@ == d,
            None => r is None,
        },
{
    let n = s.unicode_len();
    let mut k: usize = 0;
    let mut tag = String::new();
    while k < n && s.get_char(k) != '-'
        invariant
            n == s@.len(),
            k <= n,
            tag@ == s@.take(k as int),
            forall|i: int| 0 <= i < k ==> s@[i] != '-',
        decreases n - k,
    {
        push_char(&mut tag, s.get_char(k));
        k = k + 1;
        assert(tag@ =~= s@.take(k as int));
    }
    if k == n {
        assert(forall|j: int| !is_first_dash(s@, j));
        return None;
    }
    assert(is_first_dash(s@, k as int));
    proof {
        let c = choose|j: int| is_first_dash(s@, j);
        assert(c == k as int) by {
            if c < k as int {
                assert(s@[c] != '-');
            } else if c > k as int {
                assert(s@[k as int] != '-');
            }
        }
    }
    let ghost rest = s@.skip(k + 1);
    let m = n - (k + 1);
    if k == 0 || m == 0 || m % 2 != 0 {
        return None;
    }
    let mut digest: Vec<u8> = Vec::new();
    let mut j: usize = 0;
    while j < m / 2
        invariant
            n == s@.len(),
            0 < k < n,
            is_first_dash(s@, k as int),
            (choose|i: int| is_first_dash(s@, i)) == k,
            m == n - (k + 1),
            rest == s@.skip(k + 1),
            m % 2 == 0,
            j <= m / 2,
            forall|i: int| 0 <= i < 2 * j ==> is_upper_hex_char(rest[i]),
            digest@ =~= hex_decode(rest.take(2 * j as int)),
        decreases m / 2 - j,
    {
        let c1 = s.get_char(k + 1 + 2 * j);
        let c2 = s.get_char(k + 2 + 2 * j);
        assert(c1 == rest[2 * j as int] && c2 == rest[2 * j + 1]);
        if !is_upper_hex(c1) || !is_upper_hex(c2) {
            assert(!is_hex_digest(rest));
            return None;
        }
        let v = hex_val(c1) * 16 + hex_val(c2);
        digest.push(v);
        j = j + 1;
        assert(digest@ =~= hex_decode(rest.take(2 * j as int))) by {
            assert forall|i: int| 0 <= i < j implies digest@[i] == hex_decode(rest.take(2 * j as int))[i] by {
                if i < j - 1 {
                    assert(hex_decode(rest.take(2 * (j - 1) as int))[i] == digest@[i]);
                }
            }
        }
    }
    assert(rest.take(m as int) =~= rest);
    Some(SingleHashIdentifier { typ: tag, hash: digest })
}

} // verus!
