use vstd::prelude::*;

verus! {

// The text that `bytes` encode as UTF-8, if they are valid UTF-8.
pub uninterp spec fn utf8_text(bytes: Seq<u8>) -> Option<Seq<char>>;

/// The characters that ASCII bytes stand for.
pub open spec fn ascii_chars(bytes: Seq<u8>) -> Seq<char> {
    bytes.map(|_i: int, b: u8| b as char)
}

/// Relies on `String::from_utf8`: the text that the bytes encode, or an
/// error where they are not valid UTF-8. ASCII is valid UTF-8, each byte
/// standing for one character.
#[verifier::external_body]
pub(crate) fn decode_utf8(bytes: Vec<u8>) -> (r: Option<String>)
    ensures
        match r {
            Some(s) => utf8_text(bytes@) == Some(s@),
            None => utf8_text(bytes@) is None,
        },
        (forall|i: int| 0 <= i < bytes@.len() ==> #[trigger] bytes@[i] < 128) ==> r is Some && r->Some_0@
            == ascii_chars(bytes@),
{
    String::from_utf8(bytes).ok()
}

/// The decimal digits of `n`, as ASCII bytes.
pub open spec fn decimal(n: nat) -> Seq<u8>
    decreases n,
{
    if n < 10 {
        seq![(48 + n) as u8]
    } else {
        decimal(n / 10).push((48 + n % 10) as u8)
    }
}

/// `n` spaces.
pub open spec fn spaces(n: nat) -> Seq<u8> {
    Seq::new(n, |_i: int| 32u8)
}

/// `s` centred in a field of four characters, the odd space going right.
pub open spec fn centered(s: Seq<u8>) -> Seq<u8> {
    if s.len() >= 4 {
        s
    } else {
        let pad = (4 - s.len()) as nat;
        spaces(pad / 2) + s + spaces((pad - pad / 2) as nat)
    }
}

/// Appends the decimal digits of `n`.
pub fn push_decimal(out: &mut Vec<u8>, n: usize)
    ensures
        final(out)@ == old(out)@ + decimal(n as nat),
    decreases n,
{
    if n >= 10 {
        push_decimal(out, n / 10);
    }
    out.push((48 + n % 10) as u8);
    assert(final(out)@ =~= old(out)@ + decimal(n as nat));
}

/// Appends `n` spaces.
fn push_spaces(out: &mut Vec<u8>, n: usize)
    ensures
        final(out)@ == old(out)@ + spaces(n as nat),
{
    let mut i: usize = 0;
    while i < n
        invariant
            i <= n,
            out@ == old(out)@ + spaces(i as nat),
        decreases n - i,
    {
        out.push(32);
        i = i + 1;
        assert(out@ =~= old(out)@ + spaces(i as nat));
    }
}

/// Appends the decimal digits of `n` centred in a field of four characters.
pub fn push_centered(out: &mut Vec<u8>, n: usize)
    ensures
        final(out)@ == old(out)@ + centered(decimal(n as nat)),
{
    let mut digits: Vec<u8> = Vec::new();
    push_decimal(&mut digits, n);
    assert(digits@ =~= decimal(n as nat));
    let len = digits.len();
    if len >= 4 {
        let ghost before = out@;
        out.append(&mut digits);
        assert(out@ =~= before + centered(decimal(n as nat)));
    } else {
        let pad = 4 - len;
        push_spaces(out, pad / 2);
        let ghost mid = out@;
        out.append(&mut digits);
        assert(out@ =~= mid + decimal(n as nat));
        push_spaces(out, pad - pad / 2);
        assert(final(out)@ =~= old(out)@ + centered(decimal(n as nat)));
    }
}

/// The bytes of ASCII characters.
pub open spec fn ascii_of(s: Seq<char>) -> Seq<u8> {
    s.map(|_i: int, c: char| c as u8)
}

/// Appends the bytes of an ASCII string.
pub fn push_ascii(out: &mut Vec<u8>, s: &str)
    requires
        vstd::string::is_ascii(s),
    ensures
        final(out)@ == old(out)@ + ascii_of(s@),
{
    broadcast use vstd::string::is_ascii_spec_bytes;
    let b = s.as_bytes();
    assert(b@ =~= ascii_of(s@));
    let mut i: usize = 0;
    while i < b.len()
        invariant
            i <= b@.len(),
            b@ == ascii_of(s@),
            out@ == old(out)@ + b@.subrange(0, i as int),
        decreases b@.len() - i,
    {
        out.push(b[i]);
        i = i + 1;
        assert(out@ =~= old(out)@ + b@.subrange(0, i as int));
    }
    assert(b@.subrange(0, b@.len() as int) =~= b@);
}

/// Whether every byte is ASCII.
pub open spec fn all_ascii(s: Seq<u8>) -> bool {
    forall|i: int| 0 <= i < s.len() ==> #[trigger] s[i] < 128
}

pub proof fn lemma_decimal_ascii(n: nat)
    ensures
        all_ascii(decimal(n)),
        all_ascii(centered(decimal(n))),
    decreases n,
{
    if n >= 10 {
        lemma_decimal_ascii(n / 10);
    }
    let d = decimal(n);
    if d.len() < 4 {
        let pad = (4 - d.len()) as nat;
        let c = centered(d);
        assert forall|i: int| 0 <= i < c.len() implies #[trigger] c[i] < 128 by {
            if i < pad / 2 {
            } else if i < pad / 2 + d.len() {
                assert(c[i] == d[i - pad / 2]);
            } else {
            }
        }
    }
}

pub proof fn lemma_concat_ascii(a: Seq<u8>, b: Seq<u8>)
    requires
        all_ascii(a),
        all_ascii(b),
    ensures
        all_ascii(a + b),
{
    assert forall|i: int| 0 <= i < (a + b).len() implies #[trigger] (a + b)[i] < 128 by {
        if i < a.len() {
        } else {
            assert((a + b)[i] == b[i - a.len()]);
        }
    }
}

pub proof fn lemma_ascii_of_ascii(s: &str)
    requires
        vstd::string::is_ascii(s),
    ensures
        all_ascii(ascii_of(s@)),
{
    assert forall|i: int| 0 <= i < ascii_of(s@).len() implies #[trigger] ascii_of(s@)[i] < 128 by {
        assert('\0' <= s@[i] <= '\u{7f}');
    }
}

} // verus!
