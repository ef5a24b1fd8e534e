//! The text normalizer: line splitting and trimming, comment filtering, the
//! rewrite that binds an upper-limit marker `<` tightly to its number, and
//! the token-level helpers shared by the record builders.

use vstd::prelude::*;

verus! {

/// The byte views of a sequence of byte vectors.
pub open spec fn views2(s: Seq<Vec<u8>>) -> Seq<Seq<u8>> {
    Seq::new(s.len(), |i: int| s[i]@)
}

/// The byte views of a sequence of token rows.
pub open spec fn views3(s: Seq<Vec<Vec<u8>>>) -> Seq<Seq<Seq<u8>>> {
    Seq::new(s.len(), |i: int| views2(s[i]@))
}

proof fn lemma_views2_push(s: Seq<Vec<u8>>, v: Vec<u8>)
    ensures
        views2(s.push(v)) == views2(s).push(v@),
{
    assert(views2(s.push(v)) =~= views2(s).push(v@));
}

proof fn lemma_views3_push(s: Seq<Vec<Vec<u8>>>, v: Vec<Vec<u8>>)
    ensures
        views3(s.push(v)) == views3(s).push(views2(v@)),
{
    assert(views3(s.push(v)) =~= views3(s).push(views2(v@)));
}

/// ASCII whitespace, as `char::is_whitespace` sees single-byte characters.
pub open spec fn is_ws(c: u8) -> bool {
    c == 32 || c == 9 || c == 10 || c == 11 || c == 12 || c == 13
}

fn is_ws_byte(c: u8) -> (r: bool)
    ensures
        r == is_ws(c),
{
    c == 32 || c == 9 || c == 10 || c == 11 || c == 12 || c == 13
}

pub open spec fn trim_start(s: Seq<u8>) -> Seq<u8>
    decreases s.len(),
{
    if s.len() > 0 && is_ws(s[0]) {
        trim_start(s.drop_first())
    } else {
        s
    }
}

pub open spec fn trim_end(s: Seq<u8>) -> Seq<u8>
    decreases s.len(),
{
    if s.len() > 0 && is_ws(s.last()) {
        trim_end(s.drop_last())
    } else {
        s
    }
}

/// A line with the whitespace stripped from both ends.
pub open spec fn spec_trim(s: Seq<u8>) -> Seq<u8> {
    trim_end(trim_start(s))
}

proof fn lemma_trim_start_at(s: Seq<u8>, i: int)
    requires
        0 <= i <= s.len(),
        forall|j: int| 0 <= j < i ==> is_ws(s[j]),
        i < s.len() ==> !is_ws(s[i]),
    ensures
        trim_start(s) == s.subrange(i, s.len() as int),
    decreases i,
{
    if i == 0 {
        assert(s.subrange(0, s.len() as int) =~= s);
    } else {
        let t = s.drop_first();
        lemma_trim_start_at(t, i - 1);
        assert(t.subrange(i - 1, t.len() as int) =~= s.subrange(i, s.len() as int));
    }
}

proof fn lemma_trim_end_at(s: Seq<u8>, i: int)
    requires
        0 <= i <= s.len(),
        forall|j: int| i <= j < s.len() ==> is_ws(s[j]),
        i > 0 ==> !is_ws(s[i - 1]),
    ensures
        trim_end(s) == s.subrange(0, i),
    decreases s.len() - i,
{
    if i == s.len() {
        assert(s.subrange(0, s.len() as int) =~= s);
    } else {
        assert(is_ws(s.last()));
        let t = s.drop_last();
        lemma_trim_end_at(t, i);
        assert(t.subrange(0, i) =~= s.subrange(0, i));
    }
}

/// Strip the whitespace from both ends of a line.
pub fn trim(line: &[u8]) -> (r: Vec<u8>)
    ensures
        r@ == spec_trim(line@),
{
    let n = line.len();
    let mut a: usize = 0;
    while a < n && is_ws_byte(line[a])
        invariant
            0 <= a <= n,
            n == line@.len(),
            forall|j: int| 0 <= j < a ==> is_ws(line@[j]),
        decreases n - a,
    {
        a = a + 1;
    }
    proof {
        lemma_trim_start_at(line@, a as int);
    }
    let mut b: usize = n;
    while b > a && is_ws_byte(line[b - 1])
        invariant
            a <= b <= n,
            n == line@.len(),
            forall|j: int| b <= j < n ==> is_ws(line@[j]),
        decreases b,
    {
        b = b - 1;
    }
    proof {
        let t = line@.subrange(a as int, n as int);
        lemma_trim_end_at(t, b - a);
        assert(t.subrange(0, b - a) =~= line@.subrange(a as int, b as int));
    }
    let mut r: Vec<u8> = Vec::new();
    let mut k: usize = a;
    while k < b
        invariant
            a <= k <= b <= n,
            n == line@.len(),
            r@ == line@.subrange(a as int, k as int),
        decreases b - k,
    {
        r.push(line[k]);
        proof {
            assert(line@.subrange(a as int, (k + 1) as int) =~= line@.subrange(
                a as int,
                k as int,
            ).push(line@[k as int]));
        }
        k = k + 1;
    }
    r
}

/// Split a byte sequence at every separator; an empty input is one empty
/// segment, and a trailing separator contributes a final empty segment.
pub open spec fn spec_split(s: Seq<u8>, sep: u8) -> Seq<Seq<u8>>
    decreases s.len(),
{
    if s.len() == 0 {
        seq![Seq::empty()]
    } else {
        let rest = spec_split(s.drop_last(), sep);
        let c = s.last();
        if c == sep {
            rest.push(Seq::empty())
        } else {
            rest.update(rest.len() - 1, rest.last().push(c))
        }
    }
}

pub proof fn lemma_split_len(s: Seq<u8>, sep: u8)
    ensures
        spec_split(s, sep).len() >= 1,
    decreases s.len(),
{
    if s.len() > 0 {
        lemma_split_len(s.drop_last(), sep);
    }
}

/// Cut a byte string into the segments between separators.
pub fn split_bytes(s: &[u8], sep: u8) -> (r: Vec<Vec<u8>>)
    ensures
        views2(r@) == spec_split(s@, sep),
{
    let n = s.len();
    let mut out: Vec<Vec<u8>> = Vec::new();
    let mut cur: Vec<u8> = Vec::new();
    let mut i: usize = 0;
    proof {
        assert(s@.subrange(0, 0) =~= Seq::<u8>::empty());
        assert(views2(out@).push(cur@) =~= spec_split(s@.subrange(0, 0), sep));
    }
    while i < n
        invariant
            0 <= i <= n,
            n == s@.len(),
            views2(out@).push(cur@) == spec_split(s@.subrange(0, i as int), sep),
        decreases n - i,
    {
        let ghost pre = s@.subrange(0, i as int);
        let ghost post = s@.subrange(0, (i + 1) as int);
        proof {
            assert(post.drop_last() =~= pre);
            assert(post.last() == s@[i as int]);
        }
        let c = s[i];
        if c == sep {
            let ghost oldout = out@;
            let ghost oldcur = cur;
            out.push(cur);
            cur = Vec::new();
            proof {
                lemma_views2_push(oldout, oldcur);
                assert(views2(out@).push(cur@) =~= spec_split(pre, sep).push(Seq::empty()));
                assert(spec_split(post, sep) == spec_split(pre, sep).push(Seq::empty()));
            }
        } else {
            let ghost oldcur = cur@;
            cur.push(c);
            proof {
                let rest = spec_split(pre, sep);
                lemma_split_len(pre, sep);
                assert(rest == views2(out@).push(oldcur));
                assert(views2(out@).push(cur@) =~= rest.update(
                    rest.len() - 1,
                    rest.last().push(c),
                ));
            }
        }
        i = i + 1;
    }
    let ghost oldout = out@;
    let ghost oldcur = cur;
    out.push(cur);
    proof {
        lemma_views2_push(oldout, oldcur);
        assert(s@.subrange(0, n as int) =~= s@);
    }
    out
}

/// A cleaned line is kept when it is non-empty and not a `#` comment.
pub open spec fn keep_line(l: Seq<u8>) -> bool {
    l.len() > 0 && l[0] != 35
}

/// Trim every line and keep the non-empty, non-comment ones, in order.
pub open spec fn spec_clean_lines(ls: Seq<Seq<u8>>) -> Seq<Seq<u8>>
    decreases ls.len(),
{
    if ls.len() == 0 {
        Seq::empty()
    } else {
        let rest = spec_clean_lines(ls.drop_last());
        let t = spec_trim(ls.last());
        if keep_line(t) {
            rest.push(t)
        } else {
            rest
        }
    }
}

/// What the raw file text becomes: its lines, trimmed and filtered.
pub open spec fn spec_trim_contents(s: Seq<u8>) -> Seq<Seq<u8>> {
    spec_clean_lines(spec_split(s, 10))
}

/// Split the raw text into lines, trim each, and drop blank lines and
/// `#` comments.
pub fn trim_contents(contents: &[u8]) -> (r: Vec<Vec<u8>>)
    ensures
        views2(r@) == spec_trim_contents(contents@),
{
    let lines = split_bytes(contents, 10);
    let n = lines.len();
    let mut out: Vec<Vec<u8>> = Vec::new();
    let mut i: usize = 0;
    proof {
        assert(views2(lines@).subrange(0, 0) =~= Seq::<Seq<u8>>::empty());
        assert(views2(out@) =~= spec_clean_lines(views2(lines@).subrange(0, 0)));
    }
    while i < n
        invariant
            0 <= i <= n,
            n == lines@.len(),
            views2(out@) == spec_clean_lines(views2(lines@).subrange(0, i as int)),
        decreases n - i,
    {
        let ghost pre = views2(lines@).subrange(0, i as int);
        let ghost post = views2(lines@).subrange(0, (i + 1) as int);
        proof {
            assert(post.drop_last() =~= pre);
            assert(post.last() == lines@[i as int]@);
        }
        let t = trim(lines[i].as_slice());
        if t.len() > 0 && t[0] != 35 {
            let ghost oldout = out@;
            out.push(t);
            proof {
                lemma_views2_push(oldout, t);
            }
        }
        i = i + 1;
    }
    proof {
        assert(views2(lines@).subrange(0, n as int) =~= views2(lines@));
    }
    out
}

/// Delete every space that, through deleted spaces, follows a `<` marker,
/// so that the marker binds tightly to the number after it.
pub open spec fn spec_glue(s: Seq<u8>) -> Seq<u8>
    decreases s.len(),
{
    if s.len() == 0 {
        Seq::empty()
    } else {
        let rest = spec_glue(s.drop_last());
        let c = s.last();
        if c == 32 && rest.len() > 0 && rest.last() == 60 {
            rest
        } else {
            rest.push(c)
        }
    }
}

/// Rewrite `"<  0.10"` as `"<0.10"`: drop the spaces between an upper-limit
/// marker and its number.
pub fn glue_bracket(line: &[u8]) -> (r: Vec<u8>)
    ensures
        r@ == spec_glue(line@),
{
    let n = line.len();
    let mut out: Vec<u8> = Vec::new();
    let mut i: usize = 0;
    proof {
        assert(line@.subrange(0, 0) =~= Seq::<u8>::empty());
    }
    while i < n
        invariant
            0 <= i <= n,
            n == line@.len(),
            out@ == spec_glue(line@.subrange(0, i as int)),
        decreases n - i,
    {
        let ghost pre = line@.subrange(0, i as int);
        let ghost post = line@.subrange(0, (i + 1) as int);
        proof {
            assert(post.drop_last() =~= pre);
            assert(post.last() == line@[i as int]);
        }
        let c = line[i];
        if c == 32 && out.len() > 0 && out[out.len() - 1] == 60 {
            // the space is glued away
        } else {
            out.push(c);
        }
        i = i + 1;
    }
    proof {
        assert(line@.subrange(0, n as int) =~= line@);
    }
    out
}

/// The whitespace-separated tokens of a line, in order.
pub open spec fn spec_split_ws(s: Seq<u8>) -> Seq<Seq<u8>>
    decreases s.len(),
{
    if s.len() == 0 {
        Seq::empty()
    } else {
        let rest = spec_split_ws(s.drop_last());
        let c = s.last();
        if is_ws(c) {
            rest
        } else if s.len() >= 2 && !is_ws(s[s.len() - 2]) {
            rest.update(rest.len() - 1, rest.last().push(c))
        } else {
            rest.push(seq![c])
        }
    }
}

proof fn lemma_split_ws_shape(s: Seq<u8>)
    ensures
        s.len() == 0 ==> spec_split_ws(s).len() == 0,
        s.len() > 0 && is_ws(s.last()) ==> spec_split_ws(s) == spec_split_ws(s.drop_last()),
        s.len() > 0 && !is_ws(s.last()) ==> spec_split_ws(s).len() >= 1,
    decreases s.len(),
{
    if s.len() > 0 && !is_ws(s.last()) && s.len() >= 2 && !is_ws(s[s.len() - 2]) {
        lemma_split_ws_shape(s.drop_last());
        assert(s.drop_last().last() == s[s.len() - 2]);
    }
}

/// Split a line at runs of whitespace, keeping only the tokens.
pub fn split_whitespace(line: &[u8]) -> (r: Vec<Vec<u8>>)
    ensures
        views2(r@) == spec_split_ws(line@),
{
    let n = line.len();
    let mut out: Vec<Vec<u8>> = Vec::new();
    let mut cur: Vec<u8> = Vec::new();
    let mut i: usize = 0;
    proof {
        assert(line@.subrange(0, 0) =~= Seq::<u8>::empty());
    }
    while i < n
        invariant
            0 <= i <= n,
            n == line@.len(),
            i == 0 || is_ws(line@[i - 1]) ==> cur@.len() == 0 && views2(out@) == spec_split_ws(
                line@.subrange(0, i as int),
            ),
            i > 0 && !is_ws(line@[i - 1]) ==> cur@.len() > 0 && views2(out@).push(cur@)
                == spec_split_ws(line@.subrange(0, i as int)),
        decreases n - i,
    {
        let ghost pre = line@.subrange(0, i as int);
        let ghost post = line@.subrange(0, (i + 1) as int);
        proof {
            assert(post.drop_last() =~= pre);
            assert(post.last() == line@[i as int]);
            if i > 0 {
                assert(post[post.len() - 2] == line@[i - 1]);
            }
        }
        let c = line[i];
        if is_ws_byte(c) {
            if cur.len() > 0 {
                let ghost oldout = out@;
                let ghost oldcur = cur;
                out.push(cur);
                cur = Vec::new();
                proof {
                    lemma_views2_push(oldout, oldcur);
                }
            }
        } else {
            let ghost oldcur = cur@;
            cur.push(c);
            proof {
                if i > 0 && !is_ws(line@[i - 1]) {
                    let rest = spec_split_ws(pre);
                    assert(rest == views2(out@).push(oldcur));
                    assert(views2(out@).push(cur@) =~= rest.update(
                        rest.len() - 1,
                        rest.last().push(c),
                    ));
                } else {
                    assert(cur@ =~= seq![c]);
                }
            }
        }
        i = i + 1;
    }
    proof {
        assert(line@.subrange(0, n as int) =~= line@);
    }
    if cur.len() > 0 {
        let ghost oldout = out@;
        let ghost oldcur = cur;
        out.push(cur);
        proof {
            lemma_views2_push(oldout, oldcur);
        }
    }
    out
}

proof fn lemma_split_ws_token_shape(s: Seq<u8>)
    ensures
        forall|i: int|
            0 <= i < spec_split_ws(s).len() ==> (#[trigger] spec_split_ws(s)[i]).len() > 0
                && forall|j: int| 0 <= j < spec_split_ws(s)[i].len() ==> !is_ws(spec_split_ws(s)[i][j]),
    decreases s.len(),
{
    if s.len() > 0 {
        lemma_split_ws_token_shape(s.drop_last());
        let rest = spec_split_ws(s.drop_last());
        let c = s.last();
        if is_ws(c) {
        } else if s.len() >= 2 && !is_ws(s[s.len() - 2]) {
            assert(s.drop_last().last() == s[s.len() - 2]);
            lemma_split_ws_shape(s.drop_last());
            assert(rest.len() >= 1);
            let r = spec_split_ws(s);
            assert(forall|i: int| 0 <= i < r.len() - 1 ==> r[i] == rest[i]);
            assert(r[r.len() - 1] == rest[rest.len() - 1].push(c));
        } else {
            let r = spec_split_ws(s);
            assert(forall|i: int| 0 <= i < r.len() - 1 ==> r[i] == rest[i]);
            assert(r[r.len() - 1] =~= seq![c]);
        }
    }
}

/// Appending one whitespace-free token after a boundary adds exactly that
/// token to the split.
proof fn lemma_split_ws_append_token(x: Seq<u8>, t: Seq<u8>)
    requires
        t.len() > 0,
        forall|j: int| 0 <= j < t.len() ==> !is_ws(t[j]),
        x.len() == 0 || is_ws(x.last()),
    ensures
        spec_split_ws(x + t) == spec_split_ws(x).push(t),
    decreases t.len(),
{
    let s = x + t;
    if t.len() == 1 {
        assert(s.drop_last() =~= x);
        assert(s.last() == t[0]);
        if x.len() == 0 {
            assert(spec_split_ws(s) =~= spec_split_ws(x).push(t)) by {
                assert(seq![t[0]] =~= t);
            }
        } else {
            assert(s[s.len() - 2] == x.last());
            assert(spec_split_ws(s) =~= spec_split_ws(x).push(t)) by {
                assert(seq![t[0]] =~= t);
            }
        }
    } else {
        let t0 = t.drop_last();
        lemma_split_ws_append_token(x, t0);
        assert(s.drop_last() =~= x + t0);
        assert(s.last() == t.last());
        assert(s.len() >= 2);
        assert(s[s.len() - 2] == t[t.len() - 2]);
        assert(!is_ws(s[s.len() - 2]));
        let rest = spec_split_ws(x + t0);
        assert(rest == spec_split_ws(x).push(t0));
        assert(rest.len() >= 1);
        assert(rest.last() == t0);
        assert(spec_split_ws(s) == rest.update(rest.len() - 1, rest.last().push(t.last())));
        assert(rest.update(rest.len() - 1, t0.push(t.last())) =~= spec_split_ws(x).push(t)) by {
            assert(t0.push(t.last()) =~= t);
        }
    }
}

/// Joining whitespace-free tokens with single spaces and splitting again
/// yields the tokens back.
proof fn lemma_join_then_split(tokens: Seq<Seq<u8>>)
    requires
        forall|i: int|
            0 <= i < tokens.len() ==> (#[trigger] tokens[i]).len() > 0 && forall|j: int|
                0 <= j < tokens[i].len() ==> !is_ws(tokens[i][j]),
    ensures
        spec_split_ws(spec_join(tokens, 32)) == tokens,
    decreases tokens.len(),
{
    if tokens.len() == 0 {
        assert(spec_split_ws(spec_join(tokens, 32)) =~= tokens);
    } else if tokens.len() == 1 {
        let t = tokens[0];
        lemma_split_ws_append_token(Seq::empty(), t);
        assert(Seq::empty() + t =~= t);
        assert(spec_join(tokens, 32) == t);
        assert(spec_split_ws(Seq::empty()).push(t) =~= tokens);
    } else {
        let t = tokens.last();
        let front = tokens.drop_last();
        assert(forall|i: int|
            0 <= i < front.len() ==> front[i] == tokens[i] && (#[trigger] tokens[i]).len() > 0);
        lemma_join_then_split(front);
        let x = spec_join(front, 32) + seq![32u8];
        assert(spec_join(tokens, 32) == spec_join(front, 32) + seq![32u8] + t);
        assert(spec_join(front, 32) + seq![32u8] + t =~= x + t);
        lemma_split_ws_append_token(x, t);
        assert(x.last() == 32);
        assert(x.drop_last() =~= spec_join(front, 32));
        assert(spec_split_ws(x) == spec_split_ws(spec_join(front, 32)));
        assert(spec_split_ws(spec_join(tokens, 32)) == front.push(t));
        assert(front.push(t) =~= tokens);
    }
}

/// Whitespace collapsing: leading, trailing and repeated whitespace do not
/// change the token sequence — rejoining the tokens of a line with single
/// spaces and splitting again gives the same tokens.
pub proof fn lemma_whitespace_collapsing(s: Seq<u8>)
    ensures
        spec_split_ws(spec_join(spec_split_ws(s), 32)) == spec_split_ws(s),
{
    lemma_split_ws_token_shape(s);
    lemma_join_then_split(spec_split_ws(s));
}

/// Remove every `<` from a token.
pub open spec fn remove_lt(s: Seq<u8>) -> Seq<u8>
    decreases s.len(),
{
    if s.len() == 0 {
        Seq::empty()
    } else {
        let rest = remove_lt(s.drop_last());
        if s.last() == 60 {
            rest
        } else {
            rest.push(s.last())
        }
    }
}

/// An upper-limit token `<X` becomes `X(0)`; any other token is unchanged.
pub open spec fn spec_format_token(t: Seq<u8>) -> Seq<u8> {
    if t.len() > 0 && t[0] == 60 {
        spec_trim(remove_lt(t)) + seq![40u8, 48u8, 41u8]
    } else {
        t
    }
}

/// The text of an upper-limit token: every `<` removed, the ends trimmed.
pub fn strip_limit(token: &[u8]) -> (r: Vec<u8>)
    ensures
        r@ == spec_trim(remove_lt(token@)),
{
    let n = token.len();
    let mut kept: Vec<u8> = Vec::new();
    let mut i: usize = 0;
    proof {
        assert(token@.subrange(0, 0) =~= Seq::<u8>::empty());
    }
    while i < n
        invariant
            0 <= i <= n,
            n == token@.len(),
            kept@ == remove_lt(token@.subrange(0, i as int)),
        decreases n - i,
    {
        let ghost pre = token@.subrange(0, i as int);
        let ghost post = token@.subrange(0, (i + 1) as int);
        proof {
            assert(post.drop_last() =~= pre);
            assert(post.last() == token@[i as int]);
        }
        let c = token[i];
        if c != 60 {
            kept.push(c);
        }
        i = i + 1;
    }
    proof {
        assert(token@.subrange(0, n as int) =~= token@);
    }
    trim(kept.as_slice())
}

/// Rewrite an upper-limit token `<X` as `X(0)`: the bound becomes the
/// central value and the uncertainty is recorded as zero.
pub fn format_values(token: &[u8]) -> (r: Vec<u8>)
    ensures
        r@ == spec_format_token(token@),
{
    if token.len() > 0 && token[0] == 60 {
        let mut r = strip_limit(token);
        r.push(40);
        r.push(48);
        r.push(41);
        proof {
            assert(r@ =~= spec_trim(remove_lt(token@)) + seq![40u8, 48u8, 41u8]);
        }
        r
    } else {
        let mut r: Vec<u8> = Vec::new();
        let mut i: usize = 0;
        let n = token.len();
        while i < n
            invariant
                0 <= i <= n,
                n == token@.len(),
                r@ == token@.subrange(0, i as int),
            decreases n - i,
        {
            r.push(token[i]);
            proof {
                assert(token@.subrange(0, (i + 1) as int) =~= token@.subrange(
                    0,
                    i as int,
                ).push(token@[i as int]));
            }
            i = i + 1;
        }
        proof {
            assert(token@.subrange(0, n as int) =~= token@);
        }
        r
    }
}

/// Each token of a row, with the upper-limit rewrite applied.
pub open spec fn spec_format_tokens(ts: Seq<Seq<u8>>) -> Seq<Seq<u8>>
    decreases ts.len(),
{
    if ts.len() == 0 {
        Seq::empty()
    } else {
        spec_format_tokens(ts.drop_last()).push(spec_format_token(ts.last()))
    }
}

/// A cleaned line, as the record builders see it: the upper-limit marker
/// glued to its number, the line split into tokens, each token rewritten.
pub open spec fn spec_format_line(l: Seq<u8>) -> Seq<Seq<u8>> {
    spec_format_tokens(spec_split_ws(spec_glue(l)))
}

/// Every cleaned line turned into its rewritten tokens, in order.
pub open spec fn spec_format_lines(ls: Seq<Seq<u8>>) -> Seq<Seq<Seq<u8>>>
    decreases ls.len(),
{
    if ls.len() == 0 {
        Seq::empty()
    } else {
        spec_format_lines(ls.drop_last()).push(spec_format_line(ls.last()))
    }
}

/// Turn each cleaned line into its tokens, with the upper-limit rewrite
/// applied to every token.
pub fn format_lines(lines: &Vec<Vec<u8>>) -> (r: Vec<Vec<Vec<u8>>>)
    ensures
        views3(r@) == spec_format_lines(views2(lines@)),
{
    let n = lines.len();
    let mut out: Vec<Vec<Vec<u8>>> = Vec::new();
    let mut i: usize = 0;
    proof {
        assert(views2(lines@).subrange(0, 0) =~= Seq::<Seq<u8>>::empty());
        assert(views3(out@) =~= spec_format_lines(views2(lines@).subrange(0, 0)));
    }
    while i < n
        invariant
            0 <= i <= n,
            n == lines@.len(),
            views3(out@) == spec_format_lines(views2(lines@).subrange(0, i as int)),
        decreases n - i,
    {
        let ghost pre = views2(lines@).subrange(0, i as int);
        let ghost post = views2(lines@).subrange(0, (i + 1) as int);
        proof {
            assert(post.drop_last() =~= pre);
            assert(post.last() == lines@[i as int]@);
        }
        let glued = glue_bracket(lines[i].as_slice());
        let tokens = split_whitespace(glued.as_slice());
        let tn = tokens.len();
        let mut row: Vec<Vec<u8>> = Vec::new();
        let mut j: usize = 0;
        proof {
            assert(views2(tokens@).subrange(0, 0) =~= Seq::<Seq<u8>>::empty());
            assert(views2(row@) =~= spec_format_tokens(views2(tokens@).subrange(0, 0)));
        }
        while j < tn
            invariant
                0 <= j <= tn,
                tn == tokens@.len(),
                views2(row@) == spec_format_tokens(views2(tokens@).subrange(0, j as int)),
            decreases tn - j,
        {
            let ghost tpre = views2(tokens@).subrange(0, j as int);
            let ghost tpost = views2(tokens@).subrange(0, (j + 1) as int);
            proof {
                assert(tpost.drop_last() =~= tpre);
                assert(tpost.last() == tokens@[j as int]@);
            }
            let ghost oldrow = row@;
            let t = format_values(tokens[j].as_slice());
            row.push(t);
            proof {
                lemma_views2_push(oldrow, t);
            }
            j = j + 1;
        }
        proof {
            assert(views2(tokens@).subrange(0, tn as int) =~= views2(tokens@));
        }
        let ghost oldout = out@;
        out.push(row);
        proof {
            lemma_views3_push(oldout, row);
        }
        i = i + 1;
    }
    proof {
        assert(views2(lines@).subrange(0, n as int) =~= views2(lines@));
    }
    out
}

/// The parts joined by a separator byte; no separator after the last part.
pub open spec fn spec_join(ps: Seq<Seq<u8>>, sep: u8) -> Seq<u8>
    decreases ps.len(),
{
    if ps.len() == 0 {
        Seq::empty()
    } else if ps.len() == 1 {
        ps[0]
    } else {
        spec_join(ps.drop_last(), sep) + seq![sep] + ps.last()
    }
}

/// Join byte strings with a separator byte.
pub fn join_bytes(parts: &Vec<Vec<u8>>, sep: u8) -> (r: Vec<u8>)
    ensures
        r@ == spec_join(views2(parts@), sep),
{
    let n = parts.len();
    let mut out: Vec<u8> = Vec::new();
    let mut i: usize = 0;
    proof {
        assert(views2(parts@).subrange(0, 0) =~= Seq::<Seq<u8>>::empty());
    }
    while i < n
        invariant
            0 <= i <= n,
            n == parts@.len(),
            out@ == spec_join(views2(parts@).subrange(0, i as int), sep),
        decreases n - i,
    {
        let ghost pre = views2(parts@).subrange(0, i as int);
        let ghost post = views2(parts@).subrange(0, (i + 1) as int);
        proof {
            assert(post.drop_last() =~= pre);
            assert(post.last() == parts@[i as int]@);
            assert(post[0] == parts@[0]@);
        }
        if i > 0 {
            out.push(sep);
        }
        let part = &parts[i];
        let pn = part.len();
        let mut j: usize = 0;
        let ghost base = out@;
        while j < pn
            invariant
                0 <= j <= pn,
                pn == part@.len(),
                out@ == base + part@.subrange(0, j as int),
            decreases pn - j,
        {
            out.push(part[j]);
            proof {
                assert(part@.subrange(0, (j + 1) as int) =~= part@.subrange(0, j as int).push(
                    part@[j as int],
                ));
                assert(out@ =~= base + part@.subrange(0, (j + 1) as int));
            }
            j = j + 1;
        }
        proof {
            assert(part@.subrange(0, pn as int) =~= part@);
            if i == 0 {
                assert(out@ =~= spec_join(post, sep));
            } else {
                assert(out@ =~= spec_join(pre, sep) + seq![sep] + parts@[i as int]@);
            }
        }
        i = i + 1;
    }
    proof {
        assert(views2(parts@).subrange(0, n as int) =~= views2(parts@));
    }
    out
}

/// The cleaned table as text: each row's tokens joined by tabs, one row per
/// line, every line ended by a newline.
pub open spec fn spec_flatten(ls: Seq<Seq<Seq<u8>>>) -> Seq<u8>
    decreases ls.len(),
{
    if ls.len() == 0 {
        Seq::empty()
    } else {
        spec_flatten(ls.drop_last()) + spec_join(ls.last(), 9) + seq![10u8]
    }
}

/// Write the cleaned table: tab-joined tokens, newline-ended lines.
pub fn flatten_preprocessed(lines: &Vec<Vec<Vec<u8>>>) -> (r: Vec<u8>)
    ensures
        r@ == spec_flatten(views3(lines@)),
{
    let n = lines.len();
    let mut out: Vec<u8> = Vec::new();
    let mut i: usize = 0;
    proof {
        assert(views3(lines@).subrange(0, 0) =~= Seq::<Seq<Seq<u8>>>::empty());
        assert(out@ =~= spec_flatten(views3(lines@).subrange(0, 0)));
    }
    while i < n
        invariant
            0 <= i <= n,
            n == lines@.len(),
            out@ == spec_flatten(views3(lines@).subrange(0, i as int)),
        decreases n - i,
    {
        let ghost pre = views3(lines@).subrange(0, i as int);
        let ghost post = views3(lines@).subrange(0, (i + 1) as int);
        proof {
            assert(post.drop_last() =~= pre);
            assert(post.last() == views2(lines@[i as int]@));
        }
        let joined = join_bytes(&lines[i], 9);
        let ghost base = out@;
        let jn = joined.len();
        let mut j: usize = 0;
        while j < jn
            invariant
                0 <= j <= jn,
                jn == joined@.len(),
                out@ == base + joined@.subrange(0, j as int),
            decreases jn - j,
        {
            out.push(joined[j]);
            proof {
                assert(joined@.subrange(0, (j + 1) as int) =~= joined@.subrange(0, j as int).push(
                    joined@[j as int],
                ));
                assert(out@ =~= base + joined@.subrange(0, (j + 1) as int));
            }
            j = j + 1;
        }
        out.push(10);
        proof {
            assert(joined@.subrange(0, jn as int) =~= joined@);
            assert(out@ =~= spec_flatten(post));
        }
        i = i + 1;
    }
    proof {
        assert(views3(lines@).subrange(0, n as int) =~= views3(lines@));
    }
    out
}

} // verus!
