//! Turning a raw comma-separated field value into normalized keys.
use vstd::prelude::*;
use vstd::string::{StrSliceExecFns, StringExecFns};

verus! {

/// What `str::to_lowercase` returns for the characters `s`.
pub uninterp spec fn lower_of(s: Seq<char>) -> Seq<char>;

/// Whether `c` has the Unicode `White_Space` property, the whitespace that
/// `str::trim` strips.
pub uninterp spec fn is_white(c: char) -> bool;

/// `s` without its leading whitespace.
pub open spec fn trim_start(s: Seq<char>) -> Seq<char>
    decreases s.len(),
{
    if s.len() > 0 && is_white(s[0]) {
        trim_start(s.drop_first())
    } else {
        s
    }
}

/// `s` without its trailing whitespace.
pub open spec fn trim_end(s: Seq<char>) -> Seq<char>
    decreases s.len(),
{
    if s.len() > 0 && is_white(s.last()) {
        trim_end(s.drop_last())
    } else {
        s
    }
}

/// `s` without leading and trailing whitespace.
pub open spec fn trimmed(s: Seq<char>) -> Seq<char> {
    trim_end(trim_start(s))
}

/// The first `max` characters of `s`, or all of `s` when it is shorter.
pub open spec fn truncated(s: Seq<char>, max: nat) -> Seq<char> {
    if s.len() <= max {
        s
    } else {
        s.take(max as int)
    }
}

/// The pieces of `s` between commas; a string without commas is one piece.
pub open spec fn split_commas(s: Seq<char>) -> Seq<Seq<char>>
    decreases s.len(),
{
    if s.len() == 0 {
        seq![Seq::<char>::empty()]
    } else {
        let pieces = split_commas(s.drop_last());
        if s.last() == ',' {
            pieces.push(Seq::<char>::empty())
        } else {
            pieces.update(pieces.len() - 1, pieces.last().push(s.last()))
        }
    }
}

/// One piece trimmed, lower-cased and cut to `max` characters.
pub open spec fn normalized(piece: Seq<char>, max: nat) -> Seq<char> {
    truncated(lower_of(trimmed(piece)), max)
}

/// The normalized pieces that are not empty, in order, duplicates kept.
pub open spec fn keys_from(pieces: Seq<Seq<char>>, max: nat) -> Seq<Seq<char>>
    decreases pieces.len(),
{
    if pieces.len() == 0 {
        Seq::empty()
    } else {
        let rest = keys_from(pieces.drop_last(), max);
        let k = normalized(pieces.last(), max);
        if k.len() == 0 {
            rest
        } else {
            rest.push(k)
        }
    }
}

/// The keys of a raw field value.
pub open spec fn keys_of(raw: Seq<char>, max: nat) -> Seq<Seq<char>> {
    keys_from(split_commas(raw), max)
}

/// Keeps at most `max` characters of a piece.
proof fn lemma_truncated_len(s: Seq<char>, max: nat)
    ensures
        truncated(s, max).len() <= max,
        truncated(s, max).len() <= s.len(),
        truncated(s, max) == s.take(truncated(s, max).len() as int),
{
    if s.len() <= max {
        assert(s.take(s.len() as int) =~= s);
    }
}

proof fn lemma_keys_from_shape(pieces: Seq<Seq<char>>, max: nat)
    ensures
        keys_from(pieces, max).len() <= pieces.len(),
        forall|i: int|
            0 <= i < keys_from(pieces, max).len() ==> {
                let k = #[trigger] keys_from(pieces, max)[i];
                &&& 0 < k.len() <= max
                &&& exists|j: int|
                    0 <= j < pieces.len() && k == lower_of(trimmed(pieces[j])).take(k.len() as int)
            },
    decreases pieces.len(),
{
    if pieces.len() > 0 {
        let rest = pieces.drop_last();
        lemma_keys_from_shape(rest, max);
        lemma_truncated_len(lower_of(trimmed(pieces.last())), max);
        let ks = keys_from(pieces, max);
        assert forall|i: int| 0 <= i < ks.len() implies {
            let k = #[trigger] ks[i];
            &&& 0 < k.len() <= max
            &&& exists|j: int|
                0 <= j < pieces.len() && k == lower_of(trimmed(pieces[j])).take(k.len() as int)
        } by {
            if i < keys_from(rest, max).len() {
                let j = choose|j: int|
                    0 <= j < rest.len() && keys_from(rest, max)[i] == lower_of(
                        trimmed(rest[j]),
                    ).take(keys_from(rest, max)[i].len() as int);
                assert(pieces[j] == rest[j]);
            } else {
                assert(pieces[pieces.len() - 1] == pieces.last());
            }
        }
    }
}

proof fn lemma_trim_start_edge(s: Seq<char>)
    ensures
        trim_start(s).len() > 0 ==> !is_white(trim_start(s)[0]),
        exists|a: int| 0 <= a <= s.len() && trim_start(s) == s.subrange(a, s.len() as int),
    decreases s.len(),
{
    if s.len() > 0 && is_white(s[0]) {
        lemma_trim_start_edge(s.drop_first());
        let a = choose|a: int|
            0 <= a <= s.drop_first().len() && trim_start(s.drop_first())
                == s.drop_first().subrange(a, s.drop_first().len() as int);
        assert(s.drop_first().subrange(a, s.drop_first().len() as int) =~= s.subrange(
            a + 1,
            s.len() as int,
        ));
    } else {
        assert(s.subrange(0, s.len() as int) =~= s);
    }
}

proof fn lemma_trim_end_edges(s: Seq<char>)
    ensures
        trim_end(s).len() > 0 ==> !is_white(trim_end(s).last()),
        exists|b: int| 0 <= b <= s.len() && trim_end(s) == s.take(b),
    decreases s.len(),
{
    if s.len() > 0 && is_white(s.last()) {
        lemma_trim_end_edges(s.drop_last());
        let b = choose|b: int|
            0 <= b <= s.drop_last().len() && trim_end(s.drop_last()) == s.drop_last().take(b);
        assert(s.drop_last().take(b) =~= s.take(b));
    } else {
        assert(s.take(s.len() as int) =~= s);
    }
}

/// A value with `n` characters has at most `n + 1` pieces.
pub proof fn lemma_split_len(s: Seq<char>)
    ensures
        1 <= split_commas(s).len() <= s.len() + 1,
    decreases s.len(),
{
    if s.len() > 0 {
        lemma_split_len(s.drop_last());
    }
}

/// A trimmed string neither starts nor ends with whitespace.
pub proof fn lemma_trimmed_edges(s: Seq<char>)
    ensures
        trimmed(s).len() > 0 ==> !is_white(trimmed(s)[0]) && !is_white(trimmed(s).last()),
{
    let t = trim_start(s);
    lemma_trim_start_edge(s);
    lemma_trim_end_edges(t);
    let b = choose|b: int| 0 <= b <= t.len() && trim_end(t) == t.take(b);
    if trimmed(s).len() > 0 {
        assert(trimmed(s)[0] == t[0]);
    }
}

/// Every key of a raw value is non-empty, at most `max` characters long, and
/// a prefix of the lower-cased form of one comma-separated piece of the
/// value, trimmed of whitespace at both ends; there are no more keys than
/// pieces.
pub proof fn lemma_keys_shape(raw: Seq<char>, max: nat)
    ensures
        keys_of(raw, max).len() <= split_commas(raw).len(),
        forall|i: int|
            0 <= i < keys_of(raw, max).len() ==> {
                let k = #[trigger] keys_of(raw, max)[i];
                &&& 0 < k.len() <= max
                &&& exists|j: int|
                    0 <= j < split_commas(raw).len() && {
                        let t = trimmed(#[trigger] split_commas(raw)[j]);
                        &&& k == lower_of(t).take(k.len() as int)
                        &&& t.len() > 0 ==> !is_white(t[0]) && !is_white(t.last())
                    }
            },
{
    let pieces = split_commas(raw);
    lemma_keys_from_shape(pieces, max);
    assert forall|j: int| 0 <= j < pieces.len() implies {
        let t = trimmed(#[trigger] pieces[j]);
        t.len() > 0 ==> !is_white(t[0]) && !is_white(t.last())
    } by {
        lemma_trimmed_edges(pieces[j]);
    }
}

/// Relies on `str::trim`: it strips leading and trailing characters with the
/// `White_Space` property and returns the rest as a slice of `s`.
#[verifier::external_body]
fn trim_str(s: &str) -> (r: &str)
    ensures
        r@ == trimmed(s@),
        r@.len() > 0 ==> !is_white(r@[0]) && !is_white(r@.last()),
{
    s.trim()
}

/// Relies on `str::to_lowercase`: the result depends on the characters alone,
/// and an empty string stays empty.
#[verifier::external_body]
fn lowercase(s: &str) -> (r: String)
    ensures
        r@ == lower_of(s@),
        s@.len() == 0 ==> r@.len() == 0,
{
    s.to_lowercase()
}

/// Normalizes one piece: trims it, lower-cases it and keeps at most `max`
/// characters (counted as Unicode scalar values, so no character is split).
pub fn normalize_piece(piece: &str, max: usize) -> (r: String)
    ensures
        r@ == normalized(piece@, max as nat),
{
    let t = trim_str(piece);
    let lower = lowercase(t);
    let n = lower.as_str().unicode_len();
    if n <= max {
        lower
    } else {
        let cut = lower.as_str().substring_char(0, max);
        String::from_str(cut)
    }
}

/// Adds the normalized form of `piece` to `keys` when it is not empty.
fn push_key(keys: &mut Vec<String>, piece: &str, max: usize, Ghost(done): Ghost<Seq<Seq<char>>>)
    requires
        old(keys).deep_view() == keys_from(done, max as nat),
    ensures
        final(keys).deep_view() == keys_from(done.push(piece@), max as nat),
{
    let k = normalize_piece(piece, max);
    proof {
        assert(done.push(piece@).drop_last() =~= done);
    }
    if k.as_str().unicode_len() > 0 {
        let ghost before = keys.deep_view();
        keys.push(k);
        assert(keys.deep_view() =~= before.push(normalized(piece@, max as nat)));
    }
}

/// Splits `raw` on commas and normalizes each piece, dropping the pieces that
/// come out empty. A key that occurs twice is kept twice.
pub fn normalize_keys(raw: &str, max: usize) -> (keys: Vec<String>)
    ensures
        keys.deep_view() == keys_of(raw@, max as nat),
{
    let n = raw.unicode_len();
    let mut keys: Vec<String> = Vec::new();
    let mut start: usize = 0;
    let mut i: usize = 0;
    let ghost mut done: Seq<Seq<char>> = Seq::empty();
    proof {
        assert(raw@.take(0) =~= Seq::<char>::empty());
        assert(raw@.subrange(0, 0) =~= Seq::<char>::empty());
        assert(keys.deep_view() =~= Seq::<Seq<char>>::empty());
    }
    while i < n
        invariant
            n == raw@.len(),
            start <= i <= n,
            split_commas(raw@.take(i as int)) == done.push(raw@.subrange(start as int, i as int)),
            keys.deep_view() == keys_from(done, max as nat),
        decreases n - i,
    {
        let c = raw.get_char(i);
        proof {
            assert(raw@.take(i + 1).drop_last() =~= raw@.take(i as int));
            assert(raw@.take(i + 1).last() == c);
        }
        if c == ',' {
            let piece = raw.substring_char(start, i);
            push_key(&mut keys, piece, max, Ghost(done));
            proof {
                done = done.push(piece@);
                assert(raw@.subrange(i + 1, i + 1) =~= Seq::<char>::empty());
                assert(split_commas(raw@.take(i + 1)) =~= done.push(
                    raw@.subrange(i + 1, i + 1),
                ));
            }
            start = i + 1;
        } else {
            proof {
                assert(raw@.subrange(start as int, i + 1) =~= raw@.subrange(
                    start as int,
                    i as int,
                ).push(c));
                assert(split_commas(raw@.take(i + 1)) =~= done.push(
                    raw@.subrange(start as int, i + 1),
                ));
            }
        }
        i = i + 1;
    }
    let piece = raw.substring_char(start, n);
    push_key(&mut keys, piece, max, Ghost(done));
    proof {
        assert(raw@.take(n as int) =~= raw@);
    }
    keys
}

} // verus!
