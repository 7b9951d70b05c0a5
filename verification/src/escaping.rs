//! Escaping rules that make arbitrary path and token strings safe inside the
//! line-oriented build-file grammar, and the best-effort `$var` expansion
//! helper for callers that pre-render strings.

use vstd::prelude::*;
use crate::wrapping::dollar_run_before;

verus! {

/// The validation failures the library reports to its caller.
#[derive(Clone, Copy, PartialEq, Eq, Structural, Debug)]
pub enum NinjaError {
    /// A token passed to `escape` contains a newline, which the line-oriented
    /// grammar cannot represent.
    EmbeddedNewline,
    /// A rule descriptor lacks its required `command`.
    MissingRequiredField,
    /// `default` was called with no target paths.
    EmptyDefaultTargets,
    /// `build` was called with zero outputs or zero inputs.
    EmptyBuildOutputsOrInputs,
}

/// Whether the text holds a newline character.
pub open spec fn contains_newline(s: Seq<char>) -> bool {
    exists|i: int| 0 <= i < s.len() && s[i] == '\n'
}

/// Every `$` doubled: the escaped form of a general token.
pub open spec fn double_dollars(s: Seq<char>) -> Seq<char>
    decreases s.len(),
{
    if s.len() == 0 {
        Seq::empty()
    } else if s[0] == '$' {
        seq!['$', '$'] + double_dollars(s.drop_first())
    } else {
        seq![s[0]] + double_dollars(s.drop_first())
    }
}

/// The decoding of an escaped token: each `$$` pair collapses to one `$`.
pub open spec fn undouble_dollars(s: Seq<char>) -> Seq<char>
    decreases s.len(),
{
    if s.len() == 0 {
        Seq::empty()
    } else if s[0] == '$' {
        if s.len() == 1 {
            seq!['$']
        } else {
            seq!['$'] + undouble_dollars(s.skip(2))
        }
    } else {
        seq![s[0]] + undouble_dollars(s.drop_first())
    }
}

/// What one character of a path token renders to.  A colon is escaped as
/// `$:`; a space is escaped as `$ `, with one more `$` when the character
/// before it in the source was itself a `$` (protecting an already-escaped
/// space); every other character stands as it is.
pub open spec fn path_char_escaped(s: Seq<char>, i: int) -> Seq<char> {
    if s[i] == ':' {
        seq!['$', ':']
    } else if s[i] == ' ' {
        if i > 0 && s[i - 1] == '$' {
            seq!['$', '$', ' ']
        } else {
            seq!['$', ' ']
        }
    } else {
        seq![s[i]]
    }
}

/// The escaped renderings of the first `n` characters of a path token,
/// concatenated.
pub open spec fn escape_path_prefix(s: Seq<char>, n: int) -> Seq<char>
    decreases n,
{
    if n <= 0 {
        Seq::empty()
    } else {
        escape_path_prefix(s, n - 1) + path_char_escaped(s, n - 1)
    }
}

/// The escaped form of a whole path token.
pub open spec fn escape_path_spec(s: Seq<char>) -> Seq<char> {
    escape_path_prefix(s, s.len() as int)
}

/// A word character: an ASCII letter, digit or underscore.
pub open spec fn is_word_char(c: char) -> bool {
    ('a' <= c && c <= 'z') || ('A' <= c && c <= 'Z') || ('0' <= c && c <= '9') || c == '_'
}

/// The end of the maximal run of word characters starting at `j`.
pub open spec fn word_run_end(s: Seq<char>, j: int) -> int
    decreases s.len() - j,
{
    if j < 0 || j >= s.len() || !is_word_char(s[j]) {
        j
    } else {
        word_run_end(s, j + 1)
    }
}

/// The value bound to `name` in an association list of variable bindings:
/// the first binding whose key matches wins.
pub open spec fn env_lookup(env: Seq<(String, String)>, name: Seq<char>) -> Option<Seq<char>>
    decreases env.len(),
{
    if env.len() == 0 {
        None
    } else if env[0].0@ == name {
        Some(env[0].1@)
    } else {
        env_lookup(env.drop_first(), name)
    }
}

/// What a `$name` reference expands to: the local binding if present, else
/// the outer binding, else the empty string.
pub open spec fn expand_subst(
    name: Seq<char>,
    vars: Seq<(String, String)>,
    local_vars: Seq<(String, String)>,
) -> Seq<char> {
    match env_lookup(local_vars, name) {
        Some(v) => v,
        None => match env_lookup(vars, name) {
            Some(v) => v,
            None => Seq::empty(),
        },
    }
}

/// The expansion of `s` from position `i` on: `$$` becomes a literal `$`,
/// and `$` followed by a (possibly empty) maximal run of word characters is
/// replaced by the binding of that name; all other characters stand as they
/// are.
pub open spec fn expand_from(
    s: Seq<char>,
    i: int,
    vars: Seq<(String, String)>,
    local_vars: Seq<(String, String)>,
) -> Seq<char>
    decreases s.len() - i,
    via expand_from_decreases
{
    if i < 0 || i >= s.len() {
        Seq::empty()
    } else if s[i] != '$' {
        seq![s[i]] + expand_from(s, i + 1, vars, local_vars)
    } else if i + 1 < s.len() && s[i + 1] == '$' {
        seq!['$'] + expand_from(s, i + 2, vars, local_vars)
    } else {
        let k = word_run_end(s, i + 1);
        expand_subst(s.subrange(i + 1, k), vars, local_vars) + expand_from(s, k, vars, local_vars)
    }
}

#[via_fn]
proof fn expand_from_decreases(
    s: Seq<char>,
    i: int,
    vars: Seq<(String, String)>,
    local_vars: Seq<(String, String)>,
) {
    if 0 <= i && i < s.len() && s[i] == '$' && !(i + 1 < s.len() && s[i + 1] == '$') {
        lemma_word_run_end_range(s, i + 1);
    }
}

/// The maximal word run starting at `j` ends at or after `j` and within the
/// text when `j` is within the text.
pub proof fn lemma_word_run_end_range(s: Seq<char>, j: int)
    requires
        0 <= j <= s.len(),
    ensures
        j <= word_run_end(s, j) <= s.len(),
    decreases s.len() - j,
{
    if j < s.len() && is_word_char(s[j]) {
        lemma_word_run_end_range(s, j + 1);
    }
}

/// The expansion of a whole string.
pub open spec fn expand_spec(
    s: Seq<char>,
    vars: Seq<(String, String)>,
    local_vars: Seq<(String, String)>,
) -> Seq<char> {
    expand_from(s, 0, vars, local_vars)
}

/// The dollar count of a one-character text.
proof fn lemma_dollars_in_one(c: char)
    ensures
        dollars_in(seq![c]) == if c == '$' {
            1int
        } else {
            0int
        },
{
    assert(seq![c].drop_first() =~= Seq::<char>::empty());
    assert(dollars_in(Seq::<char>::empty()) == 0);
}

/// The escaped form of a one-character text.
proof fn lemma_double_dollars_one(c: char)
    ensures
        c == '$' ==> double_dollars(seq![c]) == seq!['$', '$'],
        c != '$' ==> double_dollars(seq![c]) == seq![c],
{
    assert(seq![c].drop_first() =~= Seq::<char>::empty());
    assert(double_dollars(Seq::<char>::empty()) == Seq::<char>::empty());
    if c == '$' {
        assert(double_dollars(seq![c]) =~= seq!['$', '$'] + Seq::<char>::empty());
        assert(seq!['$', '$'] + Seq::<char>::empty() =~= seq!['$', '$']);
    } else {
        assert(double_dollars(seq![c]) =~= seq![c] + Seq::<char>::empty());
        assert(seq![c] + Seq::<char>::empty() =~= seq![c]);
    }
}

/// Doubling dollars distributes over concatenation.
proof fn lemma_double_dollars_append(a: Seq<char>, b: Seq<char>)
    ensures
        double_dollars(a + b) == double_dollars(a) + double_dollars(b),
    decreases a.len(),
{
    if a.len() == 0 {
        assert(a + b =~= b);
        assert(double_dollars(a) + double_dollars(b) =~= double_dollars(b));
    } else {
        assert((a + b).drop_first() =~= a.drop_first() + b);
        assert((a + b)[0] == a[0]);
        lemma_double_dollars_append(a.drop_first(), b);
        assert(double_dollars(a + b) =~= double_dollars(a) + double_dollars(b));
    }
}

/// Decoding inverts doubling.
proof fn lemma_undouble_of_double(s: Seq<char>)
    ensures
        undouble_dollars(double_dollars(s)) == s,
    decreases s.len(),
{
    if s.len() > 0 {
        let rest = s.drop_first();
        lemma_undouble_of_double(rest);
        if s[0] == '$' {
            let d = seq!['$', '$'] + double_dollars(rest);
            assert(double_dollars(s) == d);
            assert(d.skip(2) =~= double_dollars(rest));
            assert(seq!['$'] + rest =~= s);
        } else {
            let d = seq![s[0]] + double_dollars(rest);
            assert(double_dollars(s) == d);
            assert(d.drop_first() =~= double_dollars(rest));
            assert(seq![s[0]] + rest =~= s);
        }
    }
}

/// The trailing dollar run of an escaped token is even.
proof fn lemma_double_dollars_even_tail(s: Seq<char>)
    ensures
        dollar_run_before(double_dollars(s), double_dollars(s).len() as int) % 2 == 0,
    decreases s.len(),
{
    if s.len() > 0 {
        let n = s.len() as int;
        let a = s.take(n - 1);
        let c = s[n - 1];
        assert(s =~= a + seq![c]);
        lemma_double_dollars_append(a, seq![c]);
        lemma_double_dollars_even_tail(a);
        lemma_double_dollars_one(c);
        let da = double_dollars(a);
        let out = double_dollars(s);
        if c == '$' {
            assert(out == da + seq!['$', '$']);
            assert(out.len() == da.len() + 2);
            assert(out[out.len() - 1] == '$');
            assert(out[out.len() - 2] == '$');
            crate::wrapping::lemma_run_in_prefix(da, seq!['$', '$'], da.len() as int);
            assert(dollar_run_before(out, out.len() as int) == 1 + dollar_run_before(
                out,
                out.len() - 1,
            ));
            assert(dollar_run_before(out, out.len() - 1) == 1 + dollar_run_before(
                out,
                out.len() - 2,
            ));
            assert(out.len() - 2 == da.len());
            assert(dollar_run_before(out, out.len() as int) == 2 + dollar_run_before(
                da,
                da.len() as int,
            ));
        } else {
            assert(out == da + seq![c]);
            assert(out[out.len() - 1] == c);
            assert(dollar_run_before(out, out.len() as int) == 0);
        }
    }
}

/// Law: for any token, escaping doubles every `$`, so the run of `$`
/// characters ending the escaped form has even length (no unescaped `$`
/// ends the string), and replacing every `$$` pair by `$` recovers the
/// token exactly.
pub proof fn lemma_escape_round_trip(s: Seq<char>)
    ensures
        undouble_dollars(double_dollars(s)) == s,
        dollar_run_before(double_dollars(s), double_dollars(s).len() as int) % 2 == 0,
{
    lemma_undouble_of_double(s);
    lemma_double_dollars_even_tail(s);
}

/// The number of `$` characters in a text.
pub open spec fn dollars_in(s: Seq<char>) -> int
    decreases s.len(),
{
    if s.len() == 0 {
        0
    } else {
        (if s[0] == '$' {
            1int
        } else {
            0int
        }) + dollars_in(s.drop_first())
    }
}

/// Counting dollars distributes over concatenation.
proof fn lemma_dollars_in_append(a: Seq<char>, b: Seq<char>)
    ensures
        dollars_in(a + b) == dollars_in(a) + dollars_in(b),
    decreases a.len(),
{
    if a.len() == 0 {
        assert(a + b =~= b);
    } else {
        assert((a + b).drop_first() =~= a.drop_first() + b);
        assert((a + b)[0] == a[0]);
        lemma_dollars_in_append(a.drop_first(), b);
    }
}

/// Path escaping of a prefix keeps every `$` and never shrinks the text.
proof fn lemma_escape_path_prefix_keeps(s: Seq<char>, n: int)
    requires
        0 <= n <= s.len(),
    ensures
        dollars_in(escape_path_prefix(s, n)) >= dollars_in(s.take(n)),
        escape_path_prefix(s, n).len() >= n,
    decreases n,
{
    if n > 0 {
        lemma_escape_path_prefix_keeps(s, n - 1);
        lemma_dollars_in_append(escape_path_prefix(s, n - 1), path_char_escaped(s, n - 1));
        assert(s.take(n) =~= s.take(n - 1) + seq![s[n - 1]]);
        lemma_dollars_in_append(s.take(n - 1), seq![s[n - 1]]);
        let c = s[n - 1];
        lemma_dollars_in_one(c);
        let e = path_char_escaped(s, n - 1);
        if c == ':' {
            assert(e =~= seq!['$'] + seq![':']);
            lemma_dollars_in_append(seq!['$'], seq![':']);
            lemma_dollars_in_one('$');
            lemma_dollars_in_one(':');
            assert(dollars_in(e) == 1);
        } else if c == ' ' {
            if n - 1 > 0 && s[n - 2] == '$' {
                assert(e =~= (seq!['$'] + seq!['$']) + seq![' ']);
                lemma_dollars_in_append(seq!['$'] + seq!['$'], seq![' ']);
                lemma_dollars_in_append(seq!['$'], seq!['$']);
                lemma_dollars_in_one('$');
                lemma_dollars_in_one(' ');
                assert(dollars_in(e) == 2);
            } else {
                assert(e =~= seq!['$'] + seq![' ']);
                lemma_dollars_in_append(seq!['$'], seq![' ']);
                lemma_dollars_in_one('$');
                lemma_dollars_in_one(' ');
                assert(dollars_in(e) == 1);
            }
        } else {
            assert(e =~= seq![c]);
        }
    } else {
        assert(s.take(0) =~= Seq::<char>::empty());
    }
}

/// Law: re-applying path escaping to any text, in particular to its own
/// output, never removes an existing escape: every `$` of the input is kept
/// (the count of `$` characters never drops) and the text never shrinks.
pub proof fn lemma_escape_path_keeps_escapes(s: Seq<char>)
    ensures
        dollars_in(escape_path_spec(s)) >= dollars_in(s),
        escape_path_spec(s).len() >= s.len(),
{
    lemma_escape_path_prefix_keeps(s, s.len() as int);
    assert(s.take(s.len() as int) =~= s);
}

/// Collects the characters of a string slice.
pub fn str_chars(s: &str) -> (v: Vec<char>)
    ensures
        v@ == s@,
{
    let n = s.unicode_len();
    let mut v: Vec<char> = Vec::new();
    let mut i: usize = 0;
    while i < n
        invariant
            i <= n,
            n == s@.len(),
            v@ == s@.take(i as int),
        decreases n - i,
    {
        v.push(s.get_char(i));
        proof {
            assert(v@ =~= s@.take(i + 1 as int));
        }
        i = i + 1;
    }
    proof {
        assert(s@.take(n as int) =~= s@);
    }
    v
}

/// Builds a `String` from a sequence of characters.
///
/// Relies on `String`'s `FromIterator` over `char`: collecting characters
/// yields the string of exactly those characters in order.
#[verifier::external_body]
pub fn chars_string(v: &Vec<char>) -> (r: String)
    ensures
        r@ == v@,
{
    v.iter().collect()
}

/// Whether the string holds a newline, decided executably.
fn has_newline(v: &Vec<char>) -> (r: bool)
    ensures
        r == contains_newline(v@),
{
    let mut i: usize = 0;
    while i < v.len()
        invariant
            i <= v.len(),
            forall|j: int| 0 <= j < i ==> v@[j] != '\n',
        decreases v.len() - i,
    {
        if v[i] == '\n' {
            return true;
        }
        i = i + 1;
    }
    false
}

/// Escapes a general token for the grammar: rejects embedded newlines, and
/// otherwise doubles every `$`.
pub fn escape(string: String) -> (r: Result<String, NinjaError>)
    ensures
        contains_newline(string@) ==> r == Err::<String, NinjaError>(NinjaError::EmbeddedNewline),
        !contains_newline(string@) ==> (r matches Ok(out) && out@ == double_dollars(string@)),
{
    let v = str_chars(string.as_str());
    if has_newline(&v) {
        return Err(NinjaError::EmbeddedNewline);
    }
    let mut out: Vec<char> = Vec::new();
    proof {
        assert(v@.skip(0) =~= v@);
        assert(out@ + double_dollars(v@) =~= double_dollars(v@));
    }
    let mut i: usize = 0;
    while i < v.len()
        invariant
            i <= v.len(),
            double_dollars(v@) == out@ + double_dollars(v@.skip(i as int)),
        decreases v.len() - i,
    {
        proof {
            assert(v@.skip(i as int).drop_first() =~= v@.skip(i + 1 as int));
            assert(v@.skip(i as int)[0] == v@[i as int]);
        }
        if v[i] == '$' {
            out.push('$');
            out.push('$');
        } else {
            out.push(v[i]);
        }
        proof {
            assert(double_dollars(v@) == out@ + double_dollars(v@.skip(i + 1 as int)));
        }
        i = i + 1;
    }
    proof {
        assert(v@.skip(v@.len() as int) =~= Seq::<char>::empty());
    }
    Ok(chars_string(&out))
}

/// Appends the escaped form of the path token `s` to `out`.
pub fn push_escaped_path(out: &mut Vec<char>, s: &String)
    ensures
        final(out)@ == old(out)@ + escape_path_spec(s@),
{
    let v = str_chars(s.as_str());
    let mut i: usize = 0;
    while i < v.len()
        invariant
            i <= v.len(),
            v@ == s@,
            out@ == old(out)@ + escape_path_prefix(s@, i as int),
        decreases v.len() - i,
    {
        if v[i] == ':' {
            out.push('$');
            out.push(':');
        } else if v[i] == ' ' {
            if i > 0 && v[i - 1] == '$' {
                out.push('$');
            }
            out.push('$');
            out.push(' ');
        } else {
            out.push(v[i]);
        }
        proof {
            assert(out@ =~= old(out)@ + escape_path_prefix(s@, i + 1 as int));
        }
        i = i + 1;
    }
}

/// Escapes a path-like token: every literal space becomes `$ ` (with an
/// already-escaped space protected first) and every colon becomes `$:`.
pub fn escape_path(word: &String) -> (r: String)
    ensures
        r@ == escape_path_spec(word@),
{
    let mut out: Vec<char> = Vec::new();
    push_escaped_path(&mut out, word);
    chars_string(&out)
}

/// Looks `name` up in an association list of bindings; the first binding
/// whose key matches wins.
fn lookup_env(env: &Vec<(String, String)>, name: &Vec<char>) -> (r: Option<String>)
    ensures
        match r {
            Some(v) => env_lookup(env@, name@) == Some(v@),
            None => env_lookup(env@, name@) == None::<Seq<char>>,
        },
{
    proof {
        assert(env@.skip(0) =~= env@);
    }
    let mut i: usize = 0;
    while i < env.len()
        invariant
            i <= env.len(),
            env_lookup(env@, name@) == env_lookup(env@.skip(i as int), name@),
        decreases env.len() - i,
    {
        proof {
            assert(env@.skip(i as int).drop_first() =~= env@.skip(i + 1 as int));
            assert(env@.skip(i as int)[0] == env@[i as int]);
        }
        let key_chars = str_chars(env[i].0.as_str());
        if chars_eq(&key_chars, name) {
            return Some(clone_string(&env[i].1));
        }
        i = i + 1;
    }
    proof {
        assert(env@.skip(env@.len() as int) =~= Seq::<(String, String)>::empty());
    }
    None
}

/// Compares two character sequences for equality.
fn chars_eq(a: &Vec<char>, b: &Vec<char>) -> (r: bool)
    ensures
        r == (a@ == b@),
{
    if a.len() != b.len() {
        proof {
            assert(a@ != b@);
        }
        return false;
    }
    let mut i: usize = 0;
    while i < a.len()
        invariant
            i <= a.len(),
            a@.len() == b@.len(),
            forall|j: int| 0 <= j < i ==> a@[j] == b@[j],
        decreases a.len() - i,
    {
        if a[i] != b[i] {
            proof {
                assert(a@ != b@);
            }
            return false;
        }
        i = i + 1;
    }
    proof {
        assert(a@ =~= b@);
    }
    true
}

/// Clones a string.
fn clone_string(s: &String) -> (r: String)
    ensures
        r@ == s@,
{
    s.clone()
}

/// Appends the characters of `s` to `out`.
pub fn push_str_chars(out: &mut Vec<char>, s: &str)
    ensures
        final(out)@ == old(out)@ + s@,
{
    let n = s.unicode_len();
    let mut i: usize = 0;
    while i < n
        invariant
            i <= n,
            n == s@.len(),
            out@ == old(out)@ + s@.take(i as int),
        decreases n - i,
    {
        out.push(s.get_char(i));
        proof {
            assert(out@ =~= old(out)@ + s@.take(i + 1 as int));
        }
        i = i + 1;
    }
    proof {
        assert(s@.take(n as int) =~= s@);
    }
}

/// Decides `is_word_char` executably.
fn check_word_char(c: char) -> (r: bool)
    ensures
        r == is_word_char(c),
{
    ('a' <= c && c <= 'z') || ('A' <= c && c <= 'Z') || ('0' <= c && c <= '9') || c == '_'
}

/// Expands a string containing `$var` references as the grammar would:
/// `$$` becomes a literal `$`, and `$` followed by a maximal (possibly
/// empty) run of word characters is replaced by the local binding of that
/// name if present, else the outer binding, else the empty string.
pub fn expand(
    string: &String,
    vars: &Vec<(String, String)>,
    local_vars: &Vec<(String, String)>,
) -> (r: String)
    ensures
        r@ == expand_spec(string@, vars@, local_vars@),
{
    let v = str_chars(string.as_str());
    let mut out: Vec<char> = Vec::new();
    let mut i: usize = 0;
    while i < v.len()
        invariant
            i <= v.len(),
            v@ == string@,
            expand_spec(string@, vars@, local_vars@) == out@ + expand_from(
                string@,
                i as int,
                vars@,
                local_vars@,
            ),
        decreases v.len() - i,
    {
        if v[i] != '$' {
            out.push(v[i]);
            i = i + 1;
        } else if i + 1 < v.len() && v[i + 1] == '$' {
            out.push('$');
            i = i + 2;
        } else {
            let start = i + 1;
            let mut k: usize = start;
            while k < v.len() && check_word_char(v[k])
                invariant
                    start <= k <= v.len(),
                    v@ == string@,
                    word_run_end(string@, start as int) == word_run_end(string@, k as int),
                decreases v.len() - k,
            {
                k = k + 1;
            }
            proof {
                assert(word_run_end(string@, k as int) == k as int);
                lemma_word_run_end_range(string@, start as int);
            }
            let mut name: Vec<char> = Vec::new();
            push_tail_range(&mut name, &v, start, k);
            let looked: Option<String> = match lookup_env(local_vars, &name) {
                Some(val) => Some(val),
                None => lookup_env(vars, &name),
            };
            match looked {
                Some(val) => {
                    push_str_chars(&mut out, val.as_str());
                },
                None => {},
            }
            i = k;
        }
    }
    proof {
        assert(expand_from(string@, v@.len() as int, vars@, local_vars@) =~= Seq::<char>::empty());
    }
    chars_string(&out)
}

/// Appends `text[from..to]` to `out`.
fn push_tail_range(out: &mut Vec<char>, text: &Vec<char>, from: usize, to: usize)
    requires
        from <= to <= text.len(),
    ensures
        final(out)@ == old(out)@ + text@.subrange(from as int, to as int),
{
    let mut i: usize = from;
    while i < to
        invariant
            from <= i <= to <= text.len(),
            out@ == old(out)@ + text@.subrange(from as int, i as int),
        decreases to - i,
    {
        out.push(text[i]);
        proof {
            assert(out@ =~= old(out)@ + text@.subrange(from as int, i + 1 as int));
        }
        i = i + 1;
    }
}

} // verus!
