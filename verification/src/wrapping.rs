//! Width-constrained, escape-aware line wrapping.
//!
//! A logical statement is emitted as one or more physical lines, each at most
//! `width` columns wide when possible.  A line may only be broken at a space
//! that is not escaped; a space is escaped exactly when the run of `$`
//! characters immediately before it has odd length.  Every line but the last
//! ends with the continuation marker `" $"`.

use vstd::prelude::*;

verus! {

/// Number of consecutive `$` characters immediately preceding index `i`,
/// scanning backward until a non-`$` character or the start of the text.
pub open spec fn dollar_run_before(s: Seq<char>, i: int) -> int
    decreases i,
{
    if i <= 0 || i > s.len() {
        0
    } else if s[i - 1] != '$' {
        0
    } else {
        1 + dollar_run_before(s, i - 1)
    }
}

/// A line may be broken at position `p` iff the character there is a space
/// whose preceding `$` run has even length (an unescaped space).
pub open spec fn is_break_point(s: Seq<char>, p: int) -> bool {
    &&& 0 <= p < s.len()
    &&& s[p] == ' '
    &&& dollar_run_before(s, p) % 2 == 0
}

/// The rightmost break point strictly before index `k`, or -1 if none exists.
pub open spec fn back_break(s: Seq<char>, k: int) -> int
    decreases k,
{
    if k <= 0 {
        -1
    } else if is_break_point(s, k - 1) {
        k - 1
    } else {
        back_break(s, k - 1)
    }
}

/// The leftmost break point at or after index `k`, or -1 if none exists.
pub open spec fn fwd_break(s: Seq<char>, k: int) -> int
    decreases s.len() - k,
{
    if k < 0 || k >= s.len() {
        -1
    } else if is_break_point(s, k) {
        k
    } else {
        fwd_break(s, k + 1)
    }
}

/// A run of `n` space characters.
pub open spec fn spaces(n: int) -> Seq<char> {
    Seq::new(n as nat, |i: int| ' ')
}

/// The wrapped rendering of `text`: the first line is indented by `lead`
/// spaces and continuation lines by `cont` spaces.  While the remaining text
/// does not fit in `width` columns, a break point is chosen backward from the
/// available columns (reserving two for the `" $"` marker), or failing that
/// forward; the text before the break is emitted followed by the marker.  If
/// no break point exists at all, the remainder is emitted as a single
/// over-width line, so wrapping terminates on every input.
#[verifier::opaque]
pub open spec fn wrap_from(text: Seq<char>, lead: int, cont: int, width: int) -> Seq<char>
    decreases text.len(),
{
    if lead + text.len() <= width {
        spaces(lead) + text + seq!['\n']
    } else {
        let avail = if width >= lead + 2 {
            width - lead - 2
        } else {
            0
        };
        let b = back_break(text, if avail <= text.len() {
            avail
        } else {
            text.len() as int
        });
        let p = if b >= 0 {
            b
        } else {
            fwd_break(text, avail)
        };
        if 0 <= p && p < text.len() {
            spaces(lead) + text.take(p) + seq![' ', '$', '\n'] + wrap_from(
                text.skip(p + 1),
                cont,
                cont,
                width,
            )
        } else {
            spaces(lead) + text + seq!['\n']
        }
    }
}

/// The wrapped rendering of one logical statement at an indent level:
/// the first line is indented by `2 * indent` spaces and continuation lines
/// by `2 * (indent + 2)` spaces.
pub open spec fn wrap_spec(text: Seq<char>, indent: int, width: int) -> Seq<char> {
    wrap_from(text, 2 * indent, 2 * indent + 4, width)
}

/// Returns the number of `$` characters directly before `s[i]`.
pub fn count_dollars_before_index(s: &Vec<char>, i: usize) -> (r: usize)
    requires
        i <= s.len(),
    ensures
        r == dollar_run_before(s@, i as int),
{
    let mut j: usize = i;
    let mut n: usize = 0;
    while j > 0 && s[j - 1] == '$'
        invariant
            0 <= j <= i <= s.len(),
            n == i - j,
            dollar_run_before(s@, i as int) == n + dollar_run_before(s@, j as int),
        decreases j,
    {
        j = j - 1;
        n = n + 1;
    }
    n
}

/// Decides `is_break_point` executably.
fn check_break_point(s: &Vec<char>, p: usize) -> (r: bool)
    requires
        p < s.len(),
    ensures
        r == is_break_point(s@, p as int),
{
    s[p] == ' ' && count_dollars_before_index(s, p) % 2 == 0
}

/// Finds the rightmost break point strictly before `k`.
fn find_back_break(s: &Vec<char>, k: usize) -> (r: Option<usize>)
    requires
        k <= s.len(),
    ensures
        match r {
            Some(p) => back_break(s@, k as int) == p as int,
            None => back_break(s@, k as int) == -1,
        },
{
    let mut j: usize = k;
    while j > 0
        invariant
            j <= k <= s.len(),
            back_break(s@, k as int) == back_break(s@, j as int),
        decreases j,
    {
        if check_break_point(s, j - 1) {
            return Some(j - 1);
        }
        j = j - 1;
    }
    None
}

/// Finds the leftmost break point at or after `k`.
fn find_fwd_break(s: &Vec<char>, k: usize) -> (r: Option<usize>)
    ensures
        match r {
            Some(p) => fwd_break(s@, k as int) == p as int,
            None => fwd_break(s@, k as int) == -1,
        },
{
    let mut j: usize = k;
    while j < s.len()
        invariant
            k <= j,
            fwd_break(s@, k as int) == fwd_break(s@, j as int),
        decreases s.len() - j,
    {
        if check_break_point(s, j) {
            return Some(j);
        }
        j = j + 1;
    }
    None
}

/// Appends `n` space characters to `out`.
fn push_spaces(out: &mut Vec<char>, n: usize)
    ensures
        final(out)@ == old(out)@ + spaces(n as int),
{
    let mut i: usize = 0;
    while i < n
        invariant
            i <= n,
            out@ == old(out)@ + spaces(i as int),
        decreases n - i,
    {
        out.push(' ');
        proof {
            assert(out@ =~= old(out)@ + spaces(i + 1 as int));
        }
        i = i + 1;
    }
}

/// Appends `text[from..]` to `out`.
fn push_tail(out: &mut Vec<char>, text: &Vec<char>, from: usize)
    requires
        from <= text.len(),
    ensures
        final(out)@ == old(out)@ + text@.skip(from as int),
{
    let mut i: usize = from;
    while i < text.len()
        invariant
            from <= i <= text.len(),
            out@ == old(out)@ + text@.subrange(from as int, i as int),
        decreases text.len() - i,
    {
        out.push(text[i]);
        proof {
            assert(out@ =~= old(out)@ + text@.subrange(from as int, i + 1 as int));
        }
        i = i + 1;
    }
    proof {
        assert(text@.subrange(from as int, text@.len() as int) =~= text@.skip(from as int));
    }
}

/// Appends the wrapped rendering of `text` to `out`, exactly as `wrap_from`
/// describes it.
#[verifier::rlimit(50)]
pub fn wrap_append(out: &mut Vec<char>, text: Vec<char>, lead: usize, cont: usize, width: usize)
    ensures
        final(out)@ == old(out)@ + wrap_from(text@, lead as int, cont as int, width as int),
    decreases text.len(),
{
    proof {
        reveal(wrap_from);
    }
    if text.len() <= width && lead <= width - text.len() {
        push_spaces(out, lead);
        push_tail(out, &text, 0);
        out.push('\n');
        proof {
            assert(text@.skip(0) =~= text@);
            assert(out@ =~= old(out)@ + (spaces(lead as int) + text@ + seq!['\n']));
        }
    } else {
        let avail: usize = if width >= 2 && width - 2 >= lead {
            width - 2 - lead
        } else {
            0
        };
        proof {
            assert(avail as int == if width as int >= lead as int + 2 {
                width as int - lead as int - 2
            } else {
                0
            });
        }
        let clamped: usize = if avail <= text.len() {
            avail
        } else {
            text.len()
        };
        let found: Option<usize> = match find_back_break(&text, clamped) {
            Some(p) => Some(p),
            None => find_fwd_break(&text, avail),
        };
        match found {
            Some(p) => {
                proof {
                    lemma_fwd_break_range(text@, avail as int);
                    lemma_back_break_range(text@, clamped as int);
                }
                push_spaces(out, lead);
                let ghost mid0 = out@;
                let mut i: usize = 0;
                while i < p
                    invariant
                        i <= p < text@.len(),
                        out@ == mid0 + text@.subrange(0, i as int),
                    decreases p - i,
                {
                    out.push(text[i]);
                    proof {
                        assert(out@ =~= mid0 + text@.subrange(0, i + 1 as int));
                    }
                    i = i + 1;
                }
                out.push(' ');
                out.push('$');
                out.push('\n');
                let mut rest: Vec<char> = Vec::new();
                push_tail(&mut rest, &text, p + 1);
                wrap_append(out, rest, cont, cont, width);
                proof {
                    assert(out@ =~= old(out)@ + (spaces(lead as int) + text@.take(p as int) + seq![
                        ' ',
                        '$',
                        '\n',
                    ] + wrap_from(text@.skip(p + 1), cont as int, cont as int, width as int)));
                }
            },
            None => {
                push_spaces(out, lead);
                push_tail(out, &text, 0);
                out.push('\n');
                proof {
                    assert(text@.skip(0) =~= text@);
                    assert(out@ =~= old(out)@ + (spaces(lead as int) + text@ + seq!['\n']));
                }
            },
        }
    }
}

/// A dollar run never reaches further back than the index it ends at.
pub proof fn lemma_run_bounds(s: Seq<char>, j: int)
    requires
        0 <= j,
    ensures
        0 <= dollar_run_before(s, j) <= j,
    decreases j,
{
    if 0 < j <= s.len() && s[j - 1] == '$' {
        lemma_run_bounds(s, j - 1);
    }
}

/// A dollar run that ends inside the prefix of a concatenation is the run of
/// the prefix alone.
pub proof fn lemma_run_in_prefix(a: Seq<char>, b: Seq<char>, j: int)
    requires
        0 <= j <= a.len(),
    ensures
        dollar_run_before(a + b, j) == dollar_run_before(a, j),
    decreases j,
{
    if j > 0 {
        assert((a + b)[j - 1] == a[j - 1]);
        if a[j - 1] == '$' {
            lemma_run_in_prefix(a, b, j - 1);
        }
    }
}

/// A dollar run that ends inside the suffix of a concatenation either stays
/// within the suffix, or spans all of it and continues through the prefix.
pub proof fn lemma_run_in_suffix(a: Seq<char>, b: Seq<char>, j: int)
    requires
        0 <= j <= b.len(),
    ensures
        dollar_run_before(b, j) == j ==> dollar_run_before(a + b, a.len() + j) == j
            + dollar_run_before(a, a.len() as int),
        dollar_run_before(b, j) < j ==> dollar_run_before(a + b, a.len() + j)
            == dollar_run_before(b, j),
    decreases j,
{
    if j == 0 {
        lemma_run_in_prefix(a, b, a.len() as int);
    } else {
        assert((a + b)[a.len() + j - 1] == b[j - 1]);
        if b[j - 1] == '$' {
            lemma_run_in_suffix(a, b, j - 1);
            lemma_run_bounds(b, j - 1);
        }
    }
}

/// The lines of a wrapped rendering, before the top-level indent is fixed:
/// the rendering is non-empty and ends in a line break; when the first
/// indent is positive the rendering starts with a space; and every interior
/// line break is preceded by the ` $` continuation marker, whose space
/// stands after an even run of `$` characters.
proof fn lemma_wrap_from_markers(t: Seq<char>, lead: int, cont: int, width: int)
    requires
        forall|i: int| 0 <= i < t.len() ==> t[i] != '\n',
        0 <= lead,
        1 <= cont,
    ensures
        ({
            let out = wrap_from(t, lead, cont, width);
            &&& out.len() > 0
            &&& out[out.len() - 1] == '\n'
            &&& lead > 0 ==> out[0] == ' '
            &&& forall|i: int|
                0 <= i < out.len() - 1 && #[trigger] out[i] == '\n' ==> i >= 2 && out[i - 1]
                    == '$' && out[i - 2] == ' ' && dollar_run_before(out, i - 2) % 2 == 0
        }),
    decreases t.len(),
{
    reveal(wrap_from);
    let out = wrap_from(t, lead, cont, width);
    let avail = if width >= lead + 2 {
        width - lead - 2
    } else {
        0
    };
    let clamped = if avail <= t.len() {
        avail
    } else {
        t.len() as int
    };
    let b = back_break(t, clamped);
    let p = if b >= 0 {
        b
    } else {
        fwd_break(t, avail)
    };
    if lead + t.len() <= width || !(0 <= p && p < t.len()) {
        assert(out == spaces(lead) + t + seq!['\n']);
        assert forall|i: int| 0 <= i < out.len() - 1 implies #[trigger] out[i] != '\n' by {
            if i < lead {
                assert(out[i] == ' ');
            } else {
                assert(out[i] == t[i - lead]);
            }
        }
    } else {
        lemma_back_break_range(t, clamped);
        lemma_fwd_break_range(t, avail);
        assert(is_break_point(t, p));
        let head = spaces(lead) + t.take(p) + seq![' ', '$', '\n'];
        let rest = wrap_from(t.skip(p + 1), cont, cont, width);
        assert(out == head + rest);
        assert(forall|i: int| 0 <= i < t.skip(p + 1).len() ==> #[trigger] t.skip(p + 1)[i] != '\n');
        lemma_wrap_from_markers(t.skip(p + 1), cont, cont, width);
        assert(out.len() == head.len() + rest.len());
        assert(out[out.len() - 1] == rest[rest.len() - 1]);
        // The marker space of the first line stands after the same dollar run
        // as the break point it replaces.
        let body = spaces(lead) + t.take(p);
        lemma_run_in_prefix(body, seq![' ', '$', '\n'], lead + p);
        lemma_run_in_prefix(head, rest, lead + p);
        lemma_run_in_suffix(spaces(lead), t.take(p), p);
        lemma_run_in_prefix(t.take(p), t.skip(p), p);
        assert(t.take(p) + t.skip(p) =~= t);
        lemma_run_bounds(t.take(p), p);
        if lead > 0 {
            assert(spaces(lead)[lead - 1] == ' ');
            assert(dollar_run_before(spaces(lead), lead) == 0);
        }
        assert(dollar_run_before(out, lead + p) == dollar_run_before(t, p));
        assert forall|i: int|
            0 <= i < out.len() - 1 && #[trigger] out[i] == '\n' implies i >= 2 && out[i - 1]
            == '$' && out[i - 2] == ' ' && dollar_run_before(out, i - 2) % 2 == 0 by {
            if i < head.len() {
                if i < lead {
                    assert(out[i] == ' ');
                    assert(false);
                } else if i < lead + p {
                    assert(out[i] == t[i - lead]);
                    assert(false);
                } else if i == lead + p {
                    assert(out[i] == ' ');
                    assert(false);
                } else if i == lead + p + 1 {
                    assert(out[i] == '$');
                    assert(false);
                } else {
                    assert(i == head.len() - 1);
                    assert(out[i - 1] == '$');
                    assert(out[i - 2] == ' ');
                }
            } else {
                let j = i - head.len();
                assert(out[i] == rest[j]);
                assert(j < rest.len() - 1);
                assert(rest[j - 1] == '$');
                assert(rest[j - 2] == ' ');
                assert(out[i - 1] == rest[j - 1]);
                assert(out[i - 2] == rest[j - 2]);
                lemma_run_in_suffix(head, rest, j - 2);
                lemma_run_bounds(rest, j - 2);
                if dollar_run_before(rest, j - 2) == j - 2 {
                    if j - 2 > 0 {
                        assert(rest[0] == ' ');
                        assert(dollar_run_before(rest, 1) == 0);
                        lemma_run_partial(rest, j - 2);
                        assert(false);
                    } else {
                        assert(head[head.len() - 1] == '\n');
                        assert(dollar_run_before(head, head.len() as int) == 0);
                        assert(dollar_run_before(out, i - 2) == 0);
                    }
                } else {
                    assert(dollar_run_before(out, i - 2) == dollar_run_before(rest, j - 2));
                }
            }
        }
    }
}

/// A dollar run that spans everything back to the start includes the first
/// character.
proof fn lemma_run_partial(s: Seq<char>, j: int)
    requires
        0 < j <= s.len(),
        dollar_run_before(s, j) == j,
    ensures
        s[0] == '$',
    decreases j,
{
    if j > 1 {
        lemma_run_bounds(s, j - 1);
        lemma_run_partial(s, j - 1);
    }
}

/// Law: in any wrapped rendering of newline-free text, every physical line
/// except the last ends in exactly the continuation marker ` $`, and the
/// marker's space is never itself escaped: the run of `$` characters
/// immediately before it has even length.
pub proof fn lemma_wrap_lines_end_with_marker(text: Seq<char>, indent: int, width: int)
    requires
        0 <= indent,
        forall|i: int| 0 <= i < text.len() ==> text[i] != '\n',
    ensures
        ({
            let out = wrap_spec(text, indent, width);
            &&& out.len() > 0
            &&& out[out.len() - 1] == '\n'
            &&& forall|i: int|
                0 <= i < out.len() - 1 && #[trigger] out[i] == '\n' ==> i >= 2 && out[i - 1]
                    == '$' && out[i - 2] == ' ' && dollar_run_before(out, i - 2) % 2 == 0
        }),
{
    lemma_wrap_from_markers(text, 2 * indent, 2 * indent + 4, width);
}

/// A found backward break lies strictly below `k` and is a break point.
pub proof fn lemma_back_break_range(s: Seq<char>, k: int)
    requires
        0 <= k <= s.len(),
    ensures
        -1 <= back_break(s, k) < k,
        back_break(s, k) >= 0 ==> is_break_point(s, back_break(s, k)),
    decreases k,
{
    if k > 0 && !is_break_point(s, k - 1) {
        lemma_back_break_range(s, k - 1);
    }
}

/// A found forward break lies at or after `k`, within the text, and is a
/// break point.
pub proof fn lemma_fwd_break_range(s: Seq<char>, k: int)
    ensures
        fwd_break(s, k) == -1 || (k <= fwd_break(s, k) < s.len() && is_break_point(
            s,
            fwd_break(s, k),
        )),
    decreases s.len() - k,
{
    if 0 <= k && k < s.len() && !is_break_point(s, k) {
        lemma_fwd_break_range(s, k + 1);
    }
}

} // verus!
