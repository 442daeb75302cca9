//! Serialization of composite request keys.
//!
//! A composite key is an ordered sequence of byte-string fields.  Its stored
//! form is a bracketed, comma-separated list of quoted fields, with quote and
//! backslash bytes escaped, so that the encoding is deterministic and
//! injective: distinct keys never share a store address.

use vstd::prelude::*;

verus! {

pub const QUOTE: u8 = 34;
pub const BACKSLASH: u8 = 92;
pub const OPEN_BRACKET: u8 = 91;
pub const CLOSE_BRACKET: u8 = 93;
pub const COMMA: u8 = 44;

/// One access-check request: the ordered fields (subject, object, action,
/// ...) that together identify a policy decision.
pub struct CompositeKey {
    pub fields: Vec<Vec<u8>>,
}

impl View for CompositeKey {
    type V = Seq<Seq<u8>>;

    open spec fn view(&self) -> Seq<Seq<u8>> {
        Seq::new(self.fields@.len(), |i: int| self.fields@[i]@)
    }
}

impl CompositeKey {
    pub fn new(fields: Vec<Vec<u8>>) -> (r: CompositeKey)
        ensures
            r@ == Seq::new(fields@.len(), |i: int| fields@[i]@),
    {
        CompositeKey { fields }
    }
}

/// The stored form of one field byte: quote and backslash are preceded by a
/// backslash, every other byte stands as itself.
pub open spec fn escaped_byte(b: u8) -> Seq<u8> {
    if b == QUOTE || b == BACKSLASH {
        seq![BACKSLASH, b]
    } else {
        seq![b]
    }
}

/// The stored form of a field's bytes.
pub open spec fn escaped(f: Seq<u8>) -> Seq<u8>
    decreases f.len(),
{
    if f.len() == 0 {
        Seq::empty()
    } else {
        escaped_byte(f[0]) + escaped(f.skip(1))
    }
}

/// A field wrapped in quotes.
pub open spec fn quoted(f: Seq<u8>) -> Seq<u8> {
    seq![QUOTE] + escaped(f) + seq![QUOTE]
}

/// The comma-separated list of quoted fields.
pub open spec fn token_body(fields: Seq<Seq<u8>>) -> Seq<u8>
    decreases fields.len(),
{
    if fields.len() == 0 {
        Seq::empty()
    } else if fields.len() == 1 {
        quoted(fields[0])
    } else {
        quoted(fields[0]) + seq![COMMA] + token_body(fields.skip(1))
    }
}

/// The full stored form of a composite key.
pub open spec fn key_token(fields: Seq<Seq<u8>>) -> Seq<u8> {
    seq![OPEN_BRACKET] + token_body(fields) + seq![CLOSE_BRACKET]
}

proof fn lemma_escaped_concat(a: Seq<u8>, b: Seq<u8>)
    ensures
        escaped(a + b) == escaped(a) + escaped(b),
    decreases a.len(),
{
    if a.len() == 0 {
        assert(a + b =~= b);
        assert(escaped(a) + escaped(b) =~= escaped(b));
    } else {
        assert((a + b).skip(1) =~= a.skip(1) + b);
        lemma_escaped_concat(a.skip(1), b);
        assert((a + b)[0] == a[0]);
        assert(escaped(a + b) == escaped_byte(a[0]) + (escaped(a.skip(1)) + escaped(b)));
        assert(escaped_byte(a[0]) + (escaped(a.skip(1)) + escaped(b)) =~= (escaped_byte(a[0])
            + escaped(a.skip(1))) + escaped(b));
    }
}

proof fn lemma_escaped_snoc(f: Seq<u8>, j: int)
    requires
        0 <= j < f.len(),
    ensures
        escaped(f.take(j + 1)) == escaped(f.take(j)) + escaped_byte(f[j]),
{
    let single = seq![f[j]];
    assert(f.take(j + 1) =~= f.take(j) + single);
    lemma_escaped_concat(f.take(j), single);
    assert(single.skip(1) =~= Seq::<u8>::empty());
    assert(single[0] == f[j]);
    assert(escaped(Seq::<u8>::empty()) == Seq::<u8>::empty());
    assert(escaped(single) == escaped_byte(single[0]) + escaped(single.skip(1)));
    assert(escaped(single) == escaped_byte(f[j]) + Seq::<u8>::empty());
    assert(escaped_byte(f[j]) + Seq::<u8>::empty() =~= escaped_byte(f[j]));
}

proof fn lemma_token_body_snoc(fields: Seq<Seq<u8>>, i: int)
    requires
        1 <= i < fields.len(),
    ensures
        token_body(fields.take(i + 1)) == token_body(fields.take(i)) + seq![COMMA] + quoted(
            fields[i],
        ),
    decreases i,
{
    if i == 1 {
        let two = fields.take(2);
        assert(two.len() == 2);
        assert(two.skip(1) =~= seq![fields[1]]);
        assert(token_body(seq![fields[1]]) == quoted(fields[1]));
        assert(token_body(two) == quoted(fields[0]) + seq![COMMA] + quoted(fields[1]));
        assert(fields.take(1).len() == 1);
        assert(token_body(fields.take(1)) == quoted(fields.take(1)[0]));
        assert(fields.take(1)[0] == fields[0]);
    } else {
        let tail = fields.skip(1);
        assert(fields.take(i + 1).skip(1) =~= tail.take(i));
        assert(fields.take(i).skip(1) =~= tail.take(i - 1));
        lemma_token_body_snoc(tail, i - 1);
        assert(tail[i - 1] == fields[i]);
        assert(fields.take(i + 1).len() == i + 1);
        assert(fields.take(i + 1)[0] == fields[0]);
        assert(token_body(fields.take(i + 1)) == quoted(fields[0]) + seq![COMMA] + token_body(
            tail.take(i),
        ));
        assert(fields.take(i).len() == i);
        assert(fields.take(i)[0] == fields[0]);
        assert(token_body(fields.take(i)) == quoted(fields[0]) + seq![COMMA] + token_body(
            tail.take(i - 1),
        ));
        assert(quoted(fields[0]) + seq![COMMA] + (token_body(tail.take(i - 1)) + seq![COMMA]
            + quoted(fields[i])) =~= (quoted(fields[0]) + seq![COMMA] + token_body(
            tail.take(i - 1),
        )) + seq![COMMA] + quoted(fields[i]));
    }
}

fn push_escaped(out: &mut Vec<u8>, f: &[u8])
    ensures
        final(out)@ == old(out)@ + escaped(f@),
{
    let mut j: usize = 0;
    while j < f.len()
        invariant
            j <= f.len(),
            out@ == old(out)@ + escaped(f@.take(j as int)),
        decreases f.len() - j,
    {
        proof {
            lemma_escaped_snoc(f@, j as int);
        }
        let b = f[j];
        if b == QUOTE || b == BACKSLASH {
            out.push(BACKSLASH);
            out.push(b);
        } else {
            out.push(b);
        }
        proof {
            assert(out@ =~= old(out)@ + escaped(f@.take(j + 1 as int)));
        }
        j = j + 1;
    }
    proof {
        assert(f@.take(f@.len() as int) =~= f@);
    }
}

fn push_quoted(out: &mut Vec<u8>, f: &[u8])
    ensures
        final(out)@ == old(out)@ + quoted(f@),
{
    out.push(QUOTE);
    push_escaped(out, f);
    out.push(QUOTE);
    proof {
        assert(out@ =~= old(out)@ + quoted(f@));
    }
}

/// Serialize a composite key into its store address.  Deterministic by
/// construction; `lemma_key_token_injective` shows it collision-free.
pub fn encode_key(k: &CompositeKey) -> (r: Vec<u8>)
    ensures
        r@ == key_token(k@),
{
    let mut out: Vec<u8> = Vec::new();
    out.push(OPEN_BRACKET);
    let n = k.fields.len();
    let mut i: usize = 0;
    while i < n
        invariant
            i <= n,
            n == k.fields.len(),
            out@ == seq![OPEN_BRACKET] + token_body(k@.take(i as int)),
        decreases n - i,
    {
        if i > 0 {
            out.push(COMMA);
        }
        push_quoted(&mut out, k.fields[i].as_slice());
        proof {
            assert(k@[i as int] == k.fields@[i as int]@);
            if i == 0 {
                assert(k@.take(1)[0] == k@[0]);
                assert(token_body(k@.take(1)) == quoted(k@[0]));
                assert(out@ =~= seq![OPEN_BRACKET] + token_body(k@.take(1)));
            } else {
                lemma_token_body_snoc(k@, i as int);
                assert(out@ =~= seq![OPEN_BRACKET] + token_body(k@.take(i + 1 as int)));
            }
        }
        i = i + 1;
    }
    out.push(CLOSE_BRACKET);
    proof {
        assert(k@.take(n as int) =~= k@);
        assert(out@ =~= key_token(k@));
    }
    out
}

/// Reading back one quoted field: returns the field's bytes and whatever
/// follows its closing quote, or nothing if no closing quote is found.
spec fn scan_field(s: Seq<u8>) -> Option<(Seq<u8>, Seq<u8>)>
    decreases s.len(),
{
    if s.len() == 0 {
        None
    } else if s[0] == QUOTE {
        Some((Seq::empty(), s.skip(1)))
    } else if s[0] == BACKSLASH {
        if s.len() >= 2 {
            match scan_field(s.skip(2)) {
                Some(p) => Some((seq![s[1]] + p.0, p.1)),
                None => None,
            }
        } else {
            None
        }
    } else {
        match scan_field(s.skip(1)) {
            Some(p) => Some((seq![s[0]] + p.0, p.1)),
            None => None,
        }
    }
}

proof fn lemma_scan_field(f: Seq<u8>, rest: Seq<u8>)
    ensures
        scan_field(escaped(f) + seq![QUOTE] + rest) == Some((f, rest)),
    decreases f.len(),
{
    let s = escaped(f) + seq![QUOTE] + rest;
    if f.len() == 0 {
        assert(s =~= seq![QUOTE] + rest);
        assert(s[0] == QUOTE);
        assert(s.skip(1) =~= rest);
    } else {
        let tail = escaped(f.skip(1)) + seq![QUOTE] + rest;
        if f[0] == QUOTE || f[0] == BACKSLASH {
            assert(escaped_byte(f[0]) == seq![BACKSLASH, f[0]]);
            assert(s =~= seq![BACKSLASH, f[0]] + tail);
            assert(s[0] == BACKSLASH);
            assert(s.len() >= 2);
            assert(s[1] == f[0]);
            assert(s.skip(2) =~= tail);
            lemma_scan_field(f.skip(1), rest);
            assert(scan_field(s) == Some((seq![f[0]] + f.skip(1), rest)));
            assert(seq![f[0]] + f.skip(1) =~= f);
        } else {
            assert(escaped_byte(f[0]) == seq![f[0]]);
            assert(s =~= seq![f[0]] + tail);
            assert(s[0] == f[0]);
            assert(s.skip(1) =~= tail);
            lemma_scan_field(f.skip(1), rest);
            assert(scan_field(s) == Some((seq![f[0]] + f.skip(1), rest)));
            assert(seq![f[0]] + f.skip(1) =~= f);
        }
    }
}

proof fn lemma_quoted_prefix(a: Seq<u8>, b: Seq<u8>, ra: Seq<u8>, rb: Seq<u8>)
    requires
        quoted(a) + ra == quoted(b) + rb,
    ensures
        a == b,
        ra == rb,
{
    let sa = escaped(a) + seq![QUOTE] + ra;
    let sb = escaped(b) + seq![QUOTE] + rb;
    assert(quoted(a) + ra =~= seq![QUOTE] + sa);
    assert(quoted(b) + rb =~= seq![QUOTE] + sb);
    assert((seq![QUOTE] + sa).skip(1) =~= sa);
    assert((seq![QUOTE] + sb).skip(1) =~= sb);
    assert(sa == sb);
    lemma_scan_field(a, ra);
    lemma_scan_field(b, rb);
    assert(Some((a, ra)) == Some((b, rb)));
}

proof fn lemma_token_body_nonempty_len(fields: Seq<Seq<u8>>)
    requires
        fields.len() >= 1,
    ensures
        token_body(fields).len() >= 2,
{
    assert(quoted(fields[0]).len() >= 2);
}

proof fn lemma_token_body_injective(a: Seq<Seq<u8>>, b: Seq<Seq<u8>>)
    requires
        token_body(a) == token_body(b),
    ensures
        a == b,
    decreases a.len(),
{
    if a.len() == 0 {
        if b.len() >= 1 {
            lemma_token_body_nonempty_len(b);
            assert(false);
        }
        assert(a =~= b);
    } else if b.len() == 0 {
        lemma_token_body_nonempty_len(a);
        assert(false);
    } else {
        let ra: Seq<u8> = if a.len() == 1 {
            Seq::empty()
        } else {
            seq![COMMA] + token_body(a.skip(1))
        };
        let rb: Seq<u8> = if b.len() == 1 {
            Seq::empty()
        } else {
            seq![COMMA] + token_body(b.skip(1))
        };
        assert(token_body(a) =~= quoted(a[0]) + ra);
        assert(token_body(b) =~= quoted(b[0]) + rb);
        lemma_quoted_prefix(a[0], b[0], ra, rb);
        if a.len() == 1 {
            assert(ra.len() == 0);
            if b.len() > 1 {
                assert(rb.len() >= 1);
                assert(false);
            }
            assert(a =~= b);
        } else {
            if b.len() == 1 {
                assert(ra.len() >= 1);
                assert(false);
            }
            assert(ra.skip(1) =~= token_body(a.skip(1)));
            assert(rb.skip(1) =~= token_body(b.skip(1)));
            lemma_token_body_injective(a.skip(1), b.skip(1));
            assert(a =~= seq![a[0]] + a.skip(1));
            assert(b =~= seq![b[0]] + b.skip(1));
        }
    }
}

/// The key codec never collides: two composite keys share a store address
/// exactly when they are the same key.
pub proof fn lemma_key_token_injective(k1: Seq<Seq<u8>>, k2: Seq<Seq<u8>>)
    ensures
        (key_token(k1) == key_token(k2)) <==> (k1 == k2),
{
    if key_token(k1) == key_token(k2) {
        let t1 = key_token(k1);
        let t2 = key_token(k2);
        assert(t1.skip(1) =~= token_body(k1) + seq![CLOSE_BRACKET]);
        assert(t2.skip(1) =~= token_body(k2) + seq![CLOSE_BRACKET]);
        let u1 = token_body(k1) + seq![CLOSE_BRACKET];
        let u2 = token_body(k2) + seq![CLOSE_BRACKET];
        assert(u1 == u2);
        assert(u1.len() == u2.len());
        assert(token_body(k1).len() == token_body(k2).len());
        assert(token_body(k1) =~= u1.take(u1.len() - 1));
        assert(token_body(k2) =~= u2.take(u2.len() - 1));
        lemma_token_body_injective(k1, k2);
    }
}

} // verus!
