//! A byte codec for occurrence analyses: fixed-width little-endian
//! words, length-prefixed grams, maps and families. Decoding an encoded
//! analysis reproduces it exactly, entry for entry, which is proved as
//! `lemma_round_trip`.

use vstd::prelude::*;

use crate::analysis::{AnalysisView, EntrySeq, FamSeq, NOccurrences, OccurrenceAnalysis};
use crate::countable::Countable;
use crate::occurrence::CountMap;

verus! {

/// 256 to the `n`.
pub open spec fn pow256(n: nat) -> int
    decreases n,
{
    if n == 0 {
        1
    } else {
        256 * pow256((n - 1) as nat)
    }
}

/// A non-negative integer as `n` bytes, little-endian.
pub open spec fn enc_word(x: int, n: nat) -> Seq<u8>
    decreases n,
{
    if n == 0 {
        Seq::empty()
    } else {
        seq![(x % 256) as u8] + enc_word(x / 256, (n - 1) as nat)
    }
}

/// The first `n` bytes of `b`, little-endian, as an integer.
pub open spec fn dec_word(b: Seq<u8>, n: nat) -> int
    decreases n,
{
    if n == 0 {
        0
    } else {
        b[0] + 256 * dec_word(b.drop_first(), (n - 1) as nat)
    }
}

/// Decoding reads back exactly the encoded word, whatever follows it.
pub proof fn lemma_word_round(x: int, n: nat, tail: Seq<u8>)
    requires
        0 <= x < pow256(n),
    ensures
        enc_word(x, n).len() == n,
        dec_word(enc_word(x, n) + tail, n) == x,
    decreases n,
{
    if n == 0 {
    } else {
        lemma_word_round(x / 256, (n - 1) as nat, tail);
        assert((enc_word(x, n) + tail).drop_first() =~= enc_word(x / 256, (n - 1) as nat) + tail);
        assert((enc_word(x, n) + tail)[0] == (x % 256) as u8);
    }
}

/// The unicode scalar values: what a `char` can hold.
pub open spec fn valid_scalar(u: int) -> bool {
    (0 <= u < 0xD800) || (0xE000 <= u <= 0x10FFFF)
}

/// The character with scalar value `u`.
pub open spec fn char_from_code(u: int) -> char {
    (u as u32) as char
}

/// Relies on `char::from_u32` of std: yields the character of a valid
/// unicode scalar value and nothing for a surrogate or out-of-range
/// code, a function of the code alone.
pub assume_specification[ char::from_u32 ](i: u32) -> (r: Option<char>)
    ensures
        (r is Some) == (i < 0xD800 || (0xE000 <= i && i <= 0x10FFFF)),
        r is Some ==> (r->0) as u32 == i,
;

/// A character sequence as consecutive 4-byte words.
pub open spec fn enc_chars(g: Seq<char>) -> Seq<u8>
    decreases g.len(),
{
    if g.len() == 0 {
        Seq::empty()
    } else {
        enc_word(g[0] as u32 as int, 4) + enc_chars(g.drop_first())
    }
}

/// A gram: its character count as 8 bytes, then its characters.
pub open spec fn enc_gram(g: Seq<char>) -> Seq<u8> {
    enc_word(g.len() as int, 8) + enc_chars(g)
}

/// An entry sequence: each gram followed by its 8-byte count.
pub open spec fn enc_entries_seq(s: EntrySeq) -> Seq<u8>
    decreases s.len(),
{
    if s.len() == 0 {
        Seq::empty()
    } else {
        enc_gram(s[0].0) + enc_word(s[0].1 as int, 8) + enc_entries_seq(s.drop_first())
    }
}

/// An occurrence map: its entry count, then its entries.
pub open spec fn enc_map(s: EntrySeq) -> Seq<u8> {
    enc_word(s.len() as int, 8) + enc_entries_seq(s)
}

/// A family body: each ordinate as 8 bytes followed by its map.
pub open spec fn enc_fam_seq(f: FamSeq) -> Seq<u8>
    decreases f.len(),
{
    if f.len() == 0 {
        Seq::empty()
    } else {
        enc_word(f[0].0 as int, 8) + enc_map(f[0].1) + enc_fam_seq(f.drop_first())
    }
}

/// A family: its member count, then its members.
pub open spec fn enc_fam(f: FamSeq) -> Seq<u8> {
    enc_word(f.len() as int, 8) + enc_fam_seq(f)
}

/// A whole analysis: n-gram family, skip-gram family, word map.
pub open spec fn enc_analysis(v: AnalysisView) -> Seq<u8> {
    enc_fam(v.ngrams) + enc_fam(v.skipgrams) + enc_map(v.words)
}

/// Appends the `n`-byte little-endian form of `x`.
fn push_word(out: &mut Vec<u8>, x: u64, n: usize)
    ensures
        final(out)@ == old(out)@ + enc_word(x as int, n as nat),
    decreases n,
{
    if n == 0 {
        proof {
            assert(final(out)@ =~= old(out)@ + enc_word(x as int, 0));
        }
    } else {
        out.push((x % 256) as u8);
        push_word(out, x / 256, n - 1);
        proof {
            assert(old(out)@ + enc_word(x as int, n as nat) =~= old(out)@.push(
                (x % 256) as u8,
            ) + enc_word((x / 256) as int, (n - 1) as nat));
        }
    }
}

/// Appends the characters of a gram, starting at position `i`.
fn push_chars(out: &mut Vec<u8>, g: &Countable, i: usize)
    requires
        i <= g@.len(),
    ensures
        final(out)@ == old(out)@ + enc_chars(g@.skip(i as int)),
    decreases g@.len() - i,
{
    if i == g.len() {
        proof {
            assert(g@.skip(i as int) =~= Seq::<char>::empty());
            assert(final(out)@ =~= old(out)@ + enc_chars(g@.skip(i as int)));
        }
    } else {
        let c = g.char_at(i);
        push_word(out, c as u32 as u64, 4);
        push_chars(out, g, i + 1);
        proof {
            let rest = g@.skip(i as int);
            assert(rest[0] == g@[i as int]);
            assert(rest.drop_first() =~= g@.skip(i + 1));
            assert(old(out)@ + enc_chars(rest) =~= (old(out)@ + enc_word(
                g@[i as int] as u32 as int,
                4,
            )) + enc_chars(g@.skip(i + 1)));
        }
    }
}

/// Appends one gram.
fn push_gram(out: &mut Vec<u8>, g: &Countable)
    ensures
        final(out)@ == old(out)@ + enc_gram(g@),
{
    push_word(out, g.len() as u64, 8);
    push_chars(out, g, 0);
    proof {
        assert(g@.skip(0) =~= g@);
        assert(old(out)@ + enc_gram(g@) =~= (old(out)@ + enc_word(g@.len() as int, 8))
            + enc_chars(g@));
    }
}

/// Appends the entries of a map, starting at position `i`.
fn push_entries(out: &mut Vec<u8>, m: &CountMap, i: usize)
    requires
        i <= m@.len(),
    ensures
        final(out)@ == old(out)@ + enc_entries_seq(m@.skip(i as int)),
    decreases m@.len() - i,
{
    if i == m.len() {
        proof {
            assert(m@.skip(i as int) =~= Seq::<(Seq<char>, u64)>::empty());
            assert(final(out)@ =~= old(out)@ + enc_entries_seq(m@.skip(i as int)));
        }
    } else {
        push_gram(out, m.gram_at(i));
        push_word(out, m.count_at(i), 8);
        push_entries(out, m, i + 1);
        proof {
            let rest = m@.skip(i as int);
            assert(rest[0] == m@[i as int]);
            assert(rest.drop_first() =~= m@.skip(i + 1));
            assert(old(out)@ + enc_entries_seq(rest) =~= ((old(out)@ + enc_gram(m@[i as int].0))
                + enc_word(m@[i as int].1 as int, 8)) + enc_entries_seq(m@.skip(i + 1)));
        }
    }
}

/// Appends one occurrence map.
fn push_map(out: &mut Vec<u8>, m: &CountMap)
    ensures
        final(out)@ == old(out)@ + enc_map(m@),
{
    push_word(out, m.len() as u64, 8);
    push_entries(out, m, 0);
    proof {
        assert(m@.skip(0) =~= m@);
        assert(old(out)@ + enc_map(m@) =~= (old(out)@ + enc_word(m@.len() as int, 8))
            + enc_entries_seq(m@));
    }
}

/// Appends the members of a family, starting at position `i`.
fn push_fam_members(out: &mut Vec<u8>, f: &NOccurrences, i: usize)
    requires
        i <= f@.len(),
    ensures
        final(out)@ == old(out)@ + enc_fam_seq(f@.skip(i as int)),
    decreases f@.len() - i,
{
    if i == f.len() {
        proof {
            assert(f@.skip(i as int) =~= Seq::<(usize, EntrySeq)>::empty());
            assert(final(out)@ =~= old(out)@ + enc_fam_seq(f@.skip(i as int)));
        }
    } else {
        push_word(out, self_ord_u64(f, i), 8);
        push_map(out, f.map_at(i));
        push_fam_members(out, f, i + 1);
        proof {
            let rest = f@.skip(i as int);
            assert(rest[0] == f@[i as int]);
            assert(rest.drop_first() =~= f@.skip(i + 1));
            assert(old(out)@ + enc_fam_seq(rest) =~= ((old(out)@ + enc_word(
                f@[i as int].0 as int,
                8,
            )) + enc_map(f@[i as int].1)) + enc_fam_seq(f@.skip(i + 1)));
        }
    }
}

/// The ordinate at position `i` as a `u64`.
fn self_ord_u64(f: &NOccurrences, i: usize) -> (r: u64)
    requires
        i < f@.len(),
        f@[i as int].0 <= u64::MAX,
    ensures
        r == f@[i as int].0 as u64,
{
    f.ordinate_at(i) as u64
}

/// Appends one family.
fn push_fam(out: &mut Vec<u8>, f: &NOccurrences)
    ensures
        final(out)@ == old(out)@ + enc_fam(f@),
{
    push_word(out, f.len() as u64, 8);
    push_fam_members(out, f, 0);
    proof {
        assert(f@.skip(0) =~= f@);
        assert(old(out)@ + enc_fam(f@) =~= (old(out)@ + enc_word(f@.len() as int, 8))
            + enc_fam_seq(f@));
    }
}

/// Encodes a whole analysis as bytes.
pub fn encode_analysis(a: &OccurrenceAnalysis) -> (r: Vec<u8>)
    ensures
        r@ == enc_analysis(a@),
{
    let mut out: Vec<u8> = Vec::new();
    push_fam(&mut out, &a.ngrams);
    push_fam(&mut out, &a.skipgrams);
    push_map(&mut out, &a.words);
    proof {
        assert(out@ =~= enc_analysis(a@));
    }
    out
}

/// Decoding `n` characters: each a 4-byte word holding a valid scalar.
pub open spec fn dec_chars(b: Seq<u8>, n: int) -> Option<(Seq<char>, int)>
    decreases n,
{
    if n <= 0 {
        Some((Seq::empty(), 0))
    } else if b.len() < 4 {
        None
    } else {
        let u = dec_word(b, 4);
        if !valid_scalar(u) {
            None
        } else {
            match dec_chars(b.skip(4), n - 1) {
                None => None,
                Some((g, c)) => Some((seq![char_from_code(u)] + g, 4 + c)),
            }
        }
    }
}

/// Decoding one gram: its character count, then its characters.
pub open spec fn dec_gram(b: Seq<u8>) -> Option<(Seq<char>, int)> {
    if b.len() < 8 {
        None
    } else {
        match dec_chars(b.skip(8), dec_word(b, 8)) {
            None => None,
            Some((g, c)) => Some((g, 8 + c)),
        }
    }
}

/// Decoding `n` entries: each a gram and its 8-byte count.
pub open spec fn dec_entries(b: Seq<u8>, n: int) -> Option<(EntrySeq, int)>
    decreases n,
{
    if n <= 0 {
        Some((Seq::empty(), 0))
    } else {
        match dec_gram(b) {
            None => None,
            Some((g, c1)) => {
                if b.len() < c1 + 8 {
                    None
                } else {
                    let v = dec_word(b.skip(c1), 8);
                    match dec_entries(b.skip(c1 + 8), n - 1) {
                        None => None,
                        Some((s, c2)) => Some((seq![(g, v as u64)] + s, c1 + 8 + c2)),
                    }
                }
            },
        }
    }
}

/// Decoding one occurrence map: its entry count, then its entries.
pub open spec fn dec_map(b: Seq<u8>) -> Option<(EntrySeq, int)> {
    if b.len() < 8 {
        None
    } else {
        match dec_entries(b.skip(8), dec_word(b, 8)) {
            None => None,
            Some((s, c)) => Some((s, 8 + c)),
        }
    }
}

/// Decoding `n` family members: each an 8-byte ordinate and a map.
pub open spec fn dec_fam_members(b: Seq<u8>, n: int) -> Option<(FamSeq, int)>
    decreases n,
{
    if n <= 0 {
        Some((Seq::empty(), 0))
    } else if b.len() < 8 {
        None
    } else {
        let ord = dec_word(b, 8);
        if ord > usize::MAX {
            None
        } else {
            match dec_map(b.skip(8)) {
                None => None,
                Some((m, c1)) => match dec_fam_members(b.skip(8 + c1), n - 1) {
                    None => None,
                    Some((f, c2)) => Some((seq![(ord as usize, m)] + f, 8 + c1 + c2)),
                },
            }
        }
    }
}

/// Decoding one family: its member count, then its members.
pub open spec fn dec_fam(b: Seq<u8>) -> Option<(FamSeq, int)> {
    if b.len() < 8 {
        None
    } else {
        match dec_fam_members(b.skip(8), dec_word(b, 8)) {
            None => None,
            Some((f, c)) => Some((f, 8 + c)),
        }
    }
}

/// Decoding a whole analysis; every byte must be consumed.
pub open spec fn dec_analysis(b: Seq<u8>) -> Option<AnalysisView> {
    match dec_fam(b) {
        None => None,
        Some((ng, c1)) => match dec_fam(b.skip(c1)) {
            None => None,
            Some((sk, c2)) => match dec_map(b.skip(c1 + c2)) {
                None => None,
                Some((w, c3)) => {
                    if c1 + c2 + c3 == b.len() {
                        Some(AnalysisView { ngrams: ng, skipgrams: sk, words: w })
                    } else {
                        None
                    }
                },
            },
        },
    }
}

/// The word-width bounds the codec uses.
pub proof fn lemma_pow256_vals()
    ensures
        pow256(4) == 0x1_0000_0000,
        pow256(8) == 0x1_0000_0000_0000_0000,
{
    assert(pow256(0) == 1);
    assert(pow256(1) == 256);
    assert(pow256(2) == 0x1_0000);
    assert(pow256(3) == 0x100_0000);
    assert(pow256(4) == 0x1_0000_0000);
    assert(pow256(5) == 0x100_0000_0000);
    assert(pow256(6) == 0x1_0000_0000_0000);
    assert(pow256(7) == 0x100_0000_0000_0000);
    assert(pow256(8) == 0x1_0000_0000_0000_0000);
}

/// A gram short enough for its length to fit the 8-byte prefix.
pub open spec fn gram_small(g: Seq<char>) -> bool {
    g.len() < 0x1_0000_0000_0000_0000
}

/// An entry sequence whose length and gram lengths fit their prefixes.
pub open spec fn entries_small(s: EntrySeq) -> bool {
    &&& s.len() < 0x1_0000_0000_0000_0000
    &&& forall|i: int| 0 <= i < s.len() ==> gram_small((#[trigger] s[i]).0)
}

/// A family whose lengths all fit their prefixes.
pub open spec fn fam_small(f: FamSeq) -> bool {
    &&& f.len() < 0x1_0000_0000_0000_0000
    &&& forall|i: int| 0 <= i < f.len() ==> entries_small((#[trigger] f[i]).1)
}

/// An analysis whose lengths all fit their prefixes. Every analysis
/// held in memory satisfies this.
pub open spec fn view_small(v: AnalysisView) -> bool {
    fam_small(v.ngrams) && fam_small(v.skipgrams) && entries_small(v.words)
}

/// Decoding reads back exactly the encoded characters.
proof fn lemma_chars_round(g: Seq<char>, tail: Seq<u8>)
    ensures
        enc_chars(g).len() == 4 * g.len(),
        dec_chars(enc_chars(g) + tail, g.len() as int) == Some((g, enc_chars(g).len() as int)),
    decreases g.len(),
{
    if g.len() == 0 {
        assert(enc_chars(g) + tail =~= tail);
    } else {
        let c0 = g[0];
        let u = c0 as u32 as int;
        lemma_pow256_vals();
        assert(valid_scalar(u)) by {
            vstd::utf8::char_is_scalar(c0);
        }
        lemma_chars_round(g.drop_first(), tail);
        lemma_word_round(u, 4, enc_chars(g.drop_first()) + tail);
        let b = enc_chars(g) + tail;
        assert(b =~= enc_word(u, 4) + (enc_chars(g.drop_first()) + tail));
        assert(dec_word(b, 4) == u);
        assert(b.skip(4) =~= enc_chars(g.drop_first()) + tail);
        assert(char_from_code(u) == g[0]) by {
            vstd::utf8::char_u32_cast(c0, c0 as u32);
        }
        assert(seq![char_from_code(u)] + g.drop_first() =~= g);
    }
}

/// Decoding reads back exactly the encoded gram.
proof fn lemma_gram_round(g: Seq<char>, tail: Seq<u8>)
    requires
        gram_small(g),
    ensures
        dec_gram(enc_gram(g) + tail) == Some((g, enc_gram(g).len() as int)),
        enc_gram(g).len() == 8 + 4 * g.len(),
    decreases g.len(),
{
    let b = enc_gram(g) + tail;
    lemma_pow256_vals();
    lemma_word_round(g.len() as int, 8, enc_chars(g) + tail);
    assert(b =~= enc_word(g.len() as int, 8) + (enc_chars(g) + tail));
    assert(dec_word(b, 8) == g.len());
    assert(b.skip(8) =~= enc_chars(g) + tail);
    lemma_chars_round(g, tail);
}

/// Decoding reads back exactly the encoded entries.
proof fn lemma_entries_round(s: EntrySeq, tail: Seq<u8>)
    requires
        entries_small(s),
    ensures
        dec_entries(enc_entries_seq(s) + tail, s.len() as int) == Some((
            s,
            enc_entries_seq(s).len() as int,
        )),
    decreases s.len(),
{
    if s.len() == 0 {
        assert(enc_entries_seq(s) + tail =~= tail);
    } else {
        let e = s[0];
        lemma_pow256_vals();
        let rest = enc_entries_seq(s.drop_first());
        assert(entries_small(s.drop_first())) by {
            assert(forall|i: int|
                0 <= i < s.drop_first().len() ==> s.drop_first()[i] == s[i + 1]);
        }
        lemma_entries_round(s.drop_first(), tail);
        let b = enc_entries_seq(s) + tail;
        assert(b =~= enc_gram(e.0) + (enc_word(e.1 as int, 8) + (rest + tail)));
        lemma_gram_round(e.0, enc_word(e.1 as int, 8) + (rest + tail));
        let c1 = enc_gram(e.0).len() as int;
        assert(dec_gram(b) == Some((e.0, c1)));
        assert(b.skip(c1) =~= enc_word(e.1 as int, 8) + (rest + tail));
        lemma_word_round(e.1 as int, 8, rest + tail);
        assert(dec_word(b.skip(c1), 8) == e.1);
        assert(b.len() >= c1 + 8);
        assert(b.skip(c1 + 8) =~= rest + tail);
        assert(seq![(e.0, e.1)] + s.drop_first() =~= s);
        assert((dec_word(b.skip(c1), 8) as u64) == e.1);
    }
}

/// Decoding reads back exactly the encoded map.
proof fn lemma_map_round(s: EntrySeq, tail: Seq<u8>)
    requires
        entries_small(s),
    ensures
        dec_map(enc_map(s) + tail) == Some((s, enc_map(s).len() as int)),
{
    let b = enc_map(s) + tail;
    lemma_pow256_vals();
    lemma_word_round(s.len() as int, 8, enc_entries_seq(s) + tail);
    assert(b =~= enc_word(s.len() as int, 8) + (enc_entries_seq(s) + tail));
    assert(dec_word(b, 8) == s.len());
    assert(b.skip(8) =~= enc_entries_seq(s) + tail);
    lemma_entries_round(s, tail);
}

/// Decoding reads back exactly the encoded family members.
#[verifier::rlimit(100)]
proof fn lemma_fam_members_round(f: FamSeq, tail: Seq<u8>)
    requires
        fam_small(f),
    ensures
        dec_fam_members(enc_fam_seq(f) + tail, f.len() as int) == Some((
            f,
            enc_fam_seq(f).len() as int,
        )),
    decreases f.len(),
{
    if f.len() == 0 {
        assert(enc_fam_seq(f) + tail =~= tail);
    } else {
        let e = f[0];
        lemma_pow256_vals();
        let rest = enc_fam_seq(f.drop_first());
        assert(fam_small(f.drop_first())) by {
            assert(forall|i: int|
                0 <= i < f.drop_first().len() ==> f.drop_first()[i] == f[i + 1]);
        }
        lemma_fam_members_round(f.drop_first(), tail);
        let b = enc_fam_seq(f) + tail;
        assert(b =~= enc_word(e.0 as int, 8) + (enc_map(e.1) + (rest + tail)));
        lemma_word_round(e.0 as int, 8, enc_map(e.1) + (rest + tail));
        assert(dec_word(b, 8) == e.0);
        assert(b.skip(8) =~= enc_map(e.1) + (rest + tail));
        lemma_map_round(e.1, rest + tail);
        let c1 = enc_map(e.1).len() as int;
        assert(b.skip(8).skip(c1) =~= b.skip(8 + c1));
        assert(b.skip(8 + c1) =~= rest + tail);
        assert(seq![(e.0, e.1)] + f.drop_first() =~= f);
    }
}

/// Decoding reads back exactly the encoded family.
proof fn lemma_fam_round(f: FamSeq, tail: Seq<u8>)
    requires
        fam_small(f),
    ensures
        dec_fam(enc_fam(f) + tail) == Some((f, enc_fam(f).len() as int)),
{
    let b = enc_fam(f) + tail;
    lemma_pow256_vals();
    lemma_word_round(f.len() as int, 8, enc_fam_seq(f) + tail);
    assert(b =~= enc_word(f.len() as int, 8) + (enc_fam_seq(f) + tail));
    assert(dec_word(b, 8) == f.len());
    assert(b.skip(8) =~= enc_fam_seq(f) + tail);
    lemma_fam_members_round(f, tail);
}

/// 256 to the `n` is positive.
proof fn lemma_pow256_pos(n: nat)
    ensures
        pow256(n) >= 1,
    decreases n,
{
    if n > 0 {
        lemma_pow256_pos((n - 1) as nat);
    }
}

/// 256 to the `n` grows with `n`.
proof fn lemma_pow256_mono(a: nat, b: nat)
    requires
        a <= b,
    ensures
        pow256(a) <= pow256(b),
    decreases b,
{
    lemma_pow256_pos(a);
    if a < b {
        lemma_pow256_mono(a, (b - 1) as nat);
        lemma_pow256_pos((b - 1) as nat);
    }
}

/// Reads an `n`-byte little-endian word.
fn read_word(b: &Vec<u8>, pos: usize, n: usize) -> (r: u64)
    requires
        pos + n <= b@.len(),
        n <= 8,
    ensures
        r as int == dec_word(b@.skip(pos as int), n as nat),
        (r as int) < pow256(n as nat),
    decreases n,
{
    proof {
        lemma_pow256_vals();
    }
    let blen: usize = b.len();
    if n == 0 {
        0
    } else {
        let lo = b[pos];
        let hi = read_word(b, pos + 1, n - 1);
        proof {
            lemma_pow256_mono((n - 1) as nat, 7);
            assert(pow256(7) == 0x100_0000_0000_0000) by {
                assert(pow256(0) == 1);
                assert(pow256(1) == 256);
                assert(pow256(2) == 0x1_0000);
                assert(pow256(3) == 0x100_0000);
                assert(pow256(4) == 0x1_0000_0000);
                assert(pow256(5) == 0x100_0000_0000);
                assert(pow256(6) == 0x1_0000_0000_0000);
                assert(pow256(7) == 0x100_0000_0000_0000);
            }
            let rest = b@.skip(pos as int);
            assert(rest[0] == b@[pos as int]);
            assert(rest.drop_first() =~= b@.skip(pos + 1));
        }
        lo as u64 + 256 * hi
    }
}

/// Reads `n` characters, each a 4-byte scalar value.
fn read_chars(b: &Vec<u8>, pos: usize, n: u64) -> (r: Option<(Countable, usize)>)
    requires
        pos <= b@.len(),
    ensures
        match r {
            Some(pair) => pos <= pair.1 <= b@.len() && dec_chars(b@.skip(pos as int), n as int)
                == Some((pair.0@, pair.1 - pos as int)),
            None => dec_chars(b@.skip(pos as int), n as int) is None,
        },
    decreases n,
{
    if n == 0 {
        return Some((Countable::empty(), pos));
    }
    if b.len() - pos < 4 {
        return None;
    }
    let u = read_word(b, pos, 4);
    proof {
        lemma_pow256_vals();
    }
    match char::from_u32(u as u32) {
        None => {
            proof {
                assert(!valid_scalar(dec_word(b@.skip(pos as int), 4)));
            }
            None
        },
        Some(c) => {
            proof {
                vstd::utf8::char_u32_cast(c, u as u32);
                assert(char_from_code(dec_word(b@.skip(pos as int), 4)) == c);
            }
            match read_chars(b, pos + 4, n - 1) {
                None => {
                    proof {
                        assert(b@.skip(pos as int).skip(4) =~= b@.skip(pos + 4));
                    }
                    None
                },
                Some(pair) => {
                    let (mut g, p) = pair;
                    g.insert_front(c);
                    proof {
                        assert(b@.skip(pos as int).skip(4) =~= b@.skip(pos + 4));
                    }
                    Some((g, p))
                },
            }
        },
    }
}

/// Reads one gram: its character count, then its characters.
fn read_gram(b: &Vec<u8>, pos: usize) -> (r: Option<(Countable, usize)>)
    requires
        pos <= b@.len(),
    ensures
        match r {
            Some(pair) => pos <= pair.1 <= b@.len() && dec_gram(b@.skip(pos as int)) == Some((
                pair.0@,
                pair.1 - pos as int,
            )),
            None => dec_gram(b@.skip(pos as int)) is None,
        },
{
    if b.len() - pos < 8 {
        return None;
    }
    let n = read_word(b, pos, 8);
    proof {
        assert(b@.skip(pos as int).skip(8) =~= b@.skip(pos + 8));
    }
    match read_chars(b, pos + 8, n) {
        None => None,
        Some(pair) => Some(pair),
    }
}

/// Reads `n` entries, each a gram and its 8-byte count.
fn read_entries(b: &Vec<u8>, pos: usize, n: u64) -> (r: Option<(CountMap, usize)>)
    requires
        pos <= b@.len(),
    ensures
        match r {
            Some(pair) => pos <= pair.1 <= b@.len() && dec_entries(b@.skip(pos as int), n as int)
                == Some((pair.0@, pair.1 - pos as int)),
            None => dec_entries(b@.skip(pos as int), n as int) is None,
        },
    decreases n,
{
    if n == 0 {
        let m = CountMap::new();
        proof {
            assert(m@ =~= Seq::<(Seq<char>, u64)>::empty());
        }
        return Some((m, pos));
    }
    match read_gram(b, pos) {
        None => None,
        Some(gp) => {
            let (g, p1) = gp;
            if b.len() - p1 < 8 {
                proof {
                    assert(b@.skip(pos as int).len() < (p1 - pos) + 8);
                }
                return None;
            }
            let v = read_word(b, p1, 8);
            proof {
                lemma_pow256_vals();
                assert(b@.skip(pos as int).skip(p1 - pos as int) =~= b@.skip(p1 as int));
                assert(b@.skip(pos as int).skip((p1 - pos) + 8) =~= b@.skip(p1 + 8));
            }
            match read_entries(b, p1 + 8, n - 1) {
                None => None,
                Some(mp) => {
                    let (mut m, p2) = mp;
                    m.insert_entry_front(g, v);
                    Some((m, p2))
                },
            }
        },
    }
}

/// Reads one occurrence map: its entry count, then its entries.
fn read_map(b: &Vec<u8>, pos: usize) -> (r: Option<(CountMap, usize)>)
    requires
        pos <= b@.len(),
    ensures
        match r {
            Some(pair) => pos <= pair.1 <= b@.len() && dec_map(b@.skip(pos as int)) == Some((
                pair.0@,
                pair.1 - pos as int,
            )),
            None => dec_map(b@.skip(pos as int)) is None,
        },
{
    if b.len() - pos < 8 {
        return None;
    }
    let n = read_word(b, pos, 8);
    proof {
        assert(b@.skip(pos as int).skip(8) =~= b@.skip(pos + 8));
    }
    match read_entries(b, pos + 8, n) {
        None => None,
        Some(pair) => Some(pair),
    }
}

/// Reads `n` family members, each an ordinate and a map.
fn read_fam_members(b: &Vec<u8>, pos: usize, n: u64) -> (r: Option<(NOccurrences, usize)>)
    requires
        pos <= b@.len(),
    ensures
        match r {
            Some(pair) => pos <= pair.1 <= b@.len() && dec_fam_members(
                b@.skip(pos as int),
                n as int,
            ) == Some((pair.0@, pair.1 - pos as int)),
            None => dec_fam_members(b@.skip(pos as int), n as int) is None,
        },
    decreases n,
{
    if n == 0 {
        let f = NOccurrences::new();
        return Some((f, pos));
    }
    if b.len() - pos < 8 {
        return None;
    }
    let ord = read_word(b, pos, 8);
    if ord > usize::MAX as u64 {
        return None;
    }
    proof {
        assert(b@.skip(pos as int).skip(8) =~= b@.skip(pos + 8));
    }
    match read_map(b, pos + 8) {
        None => None,
        Some(mp) => {
            let (m, p1) = mp;
            proof {
                assert(b@.skip(pos as int).skip(8 + (p1 - (pos + 8))) =~= b@.skip(p1 as int));
            }
            match read_fam_members(b, p1, n - 1) {
                None => None,
                Some(fp) => {
                    let (mut f, p2) = fp;
                    f.insert_entry_front(ord as usize, m);
                    Some((f, p2))
                },
            }
        },
    }
}

/// Reads one family: its member count, then its members.
fn read_fam(b: &Vec<u8>, pos: usize) -> (r: Option<(NOccurrences, usize)>)
    requires
        pos <= b@.len(),
    ensures
        match r {
            Some(pair) => pos <= pair.1 <= b@.len() && dec_fam(b@.skip(pos as int)) == Some((
                pair.0@,
                pair.1 - pos as int,
            )),
            None => dec_fam(b@.skip(pos as int)) is None,
        },
{
    if b.len() - pos < 8 {
        return None;
    }
    let n = read_word(b, pos, 8);
    proof {
        assert(b@.skip(pos as int).skip(8) =~= b@.skip(pos + 8));
    }
    match read_fam_members(b, pos + 8, n) {
        None => None,
        Some(pair) => Some(pair),
    }
}

/// Decodes a whole analysis; fails unless every byte is consumed.
pub fn decode_analysis(bytes: &Vec<u8>) -> (r: Option<OccurrenceAnalysis>)
    ensures
        match r {
            Some(a) => dec_analysis(bytes@) == Some(a@),
            None => dec_analysis(bytes@) is None,
        },
{
    proof {
        assert(bytes@.skip(0) =~= bytes@);
    }
    match read_fam(bytes, 0) {
        None => None,
        Some(ngp) => {
            let (ngrams, p1) = ngp;
            match read_fam(bytes, p1) {
                None => None,
                Some(skp) => {
                    let (skipgrams, p2) = skp;
                    proof {
                        assert(bytes@.skip(0).skip(p1 as int) =~= bytes@.skip(p1 as int));
                        assert(bytes@.skip(p1 as int).skip(p2 - p1 as int) =~= bytes@.skip(
                            p2 as int,
                        ));
                    }
                    match read_map(bytes, p2) {
                        None => None,
                        Some(wp) => {
                            let (words, p3) = wp;
                            if p3 == bytes.len() {
                                Some(OccurrenceAnalysis { ngrams, skipgrams, words })
                            } else {
                                None
                            }
                        },
                    }
                },
            }
        },
    }
}

/// Serialize then deserialize reproduces any analysis exactly: the
/// same families, grams and counts, entry for entry.
pub proof fn lemma_round_trip(v: AnalysisView)
    requires
        view_small(v),
    ensures
        dec_analysis(enc_analysis(v)) == Some(v),
{
    let b = enc_analysis(v);
    assert(b =~= enc_fam(v.ngrams) + (enc_fam(v.skipgrams) + enc_map(v.words)));
    lemma_fam_round(v.ngrams, enc_fam(v.skipgrams) + enc_map(v.words));
    let c1 = enc_fam(v.ngrams).len() as int;
    assert(b.skip(c1) =~= enc_fam(v.skipgrams) + enc_map(v.words));
    lemma_fam_round(v.skipgrams, enc_map(v.words));
    let c2 = enc_fam(v.skipgrams).len() as int;
    assert(b.skip(c1).skip(c2) =~= b.skip(c1 + c2));
    assert(b.skip(c1 + c2) =~= enc_map(v.words) + Seq::<u8>::empty());
    lemma_map_round(v.words, Seq::empty());
    let c3 = enc_map(v.words).len() as int;
    assert(enc_map(v.words) + Seq::<u8>::empty() =~= enc_map(v.words));
    assert(c1 + c2 + c3 == b.len());
}

} // verus!
