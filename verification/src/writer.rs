//! The build-file writer: configuration, the output buffer, and the
//! statement formatters that compose escaping and wrapping into
//! grammar-correct output.

use vstd::prelude::*;
use crate::escaping::chars_string;
use crate::escaping::escape_path_spec;
use crate::escaping::push_escaped_path;
use crate::escaping::push_str_chars;
use crate::escaping::str_chars;
use crate::escaping::NinjaError;
use crate::wrapping::wrap_append;
use crate::wrapping::wrap_spec;

verus! {

/// The right-hand side of a `key = value` assignment.
pub enum VariableValue {
    Bool(bool),
    Int(isize),
    Str(String),
    ListStr(Vec<String>),
}

/// A build-rule definition, constructed by the caller and consumed by
/// `Writer::rule`.  `command` is required and must be non-empty; every other
/// field is optional.
pub struct RuleDescriptor {
    pub name: String,
    pub command: String,
    pub description: Option<String>,
    pub depfile: Option<String>,
    pub generator: bool,
    pub pool: Option<String>,
    pub restat: bool,
    pub rspfile: Option<String>,
    pub rspfile_content: Option<String>,
    pub deps: Vec<String>,
}

impl Default for RuleDescriptor {
    fn default() -> (d: RuleDescriptor)
        ensures
            d.name@ == "New Rule"@,
            d.command@ == "echo"@,
            d.description is None,
            d.depfile is None,
            !d.generator,
            d.pool is None,
            !d.restat,
            d.rspfile is None,
            d.rspfile_content is None,
            d.deps@.len() == 0,
    {
        RuleDescriptor {
            name: "New Rule".to_owned(),
            command: "echo".to_owned(),
            description: None,
            depfile: None,
            generator: false,
            pool: None,
            restat: false,
            rspfile: None,
            rspfile_content: None,
            deps: Vec::new(),
        }
    }
}

/// The character for one decimal digit.
pub open spec fn dec_digit(d: int) -> char {
    if d == 0 {
        '0'
    } else if d == 1 {
        '1'
    } else if d == 2 {
        '2'
    } else if d == 3 {
        '3'
    } else if d == 4 {
        '4'
    } else if d == 5 {
        '5'
    } else if d == 6 {
        '6'
    } else if d == 7 {
        '7'
    } else if d == 8 {
        '8'
    } else {
        '9'
    }
}

/// The decimal rendering of a non-negative integer.
pub open spec fn dec_nat(n: int) -> Seq<char>
    decreases n,
{
    if n < 10 {
        seq![dec_digit(n)]
    } else {
        dec_nat(n / 10) + seq![dec_digit(n % 10)]
    }
}

/// The decimal rendering of an integer, with a leading `-` when negative.
pub open spec fn dec_int(n: int) -> Seq<char> {
    if n < 0 {
        seq!['-'] + dec_nat(-n)
    } else {
        dec_nat(n)
    }
}

/// Appends the decimal rendering of `m` to `out`.
fn push_dec_u64(out: &mut Vec<char>, m: u64)
    ensures
        final(out)@ == old(out)@ + dec_nat(m as int),
    decreases m,
{
    if m >= 10 {
        push_dec_u64(out, m / 10);
    }
    let d: u64 = m % 10;
    let c: char = if d == 0 {
        '0'
    } else if d == 1 {
        '1'
    } else if d == 2 {
        '2'
    } else if d == 3 {
        '3'
    } else if d == 4 {
        '4'
    } else if d == 5 {
        '5'
    } else if d == 6 {
        '6'
    } else if d == 7 {
        '7'
    } else if d == 8 {
        '8'
    } else {
        '9'
    };
    assert(c == dec_digit(m as int % 10));
    out.push(c);
    proof {
        if m < 10 {
            assert(m as int % 10 == m as int);
            assert(out@ =~= old(out)@ + dec_nat(m as int));
        } else {
            assert(out@ =~= old(out)@ + (dec_nat(m as int / 10) + seq![dec_digit(m as int % 10)]));
        }
    }
}

/// Appends the decimal rendering of `n` to `out`.
fn push_dec_isize(out: &mut Vec<char>, n: isize)
    ensures
        final(out)@ == old(out)@ + dec_int(n as int),
{
    if n >= 0 {
        push_dec_u64(out, n as u64);
    } else {
        out.push('-');
        let m: u64 = (-(n as i128)) as u64;
        assert(m as int == -(n as int));
        push_dec_u64(out, m);
        proof {
            assert(out@ =~= old(out)@ + (seq!['-'] + dec_nat(-(n as int))));
        }
    }
}

/// A rendered `key = value` assignment line, before wrapping.
pub open spec fn kv_text(key: Seq<char>, val: Seq<char>) -> Seq<char> {
    key + " = "@ + val
}

/// The tail of a list-valued assignment: one ` fragment` per non-empty
/// fragment among the first `n`, in order; empty fragments are dropped.
pub open spec fn list_tail_text(l: Seq<Seq<char>>, n: int) -> Seq<char>
    decreases n,
{
    if n <= 0 {
        Seq::empty()
    } else {
        list_tail_text(l, n - 1) + (if l[n - 1].len() == 0 {
            Seq::<char>::empty()
        } else {
            seq![' '] + l[n - 1]
        })
    }
}

/// The rendered text of a `key = value` assignment for each value kind.
pub open spec fn value_text(key: Seq<char>, value: VariableValue) -> Seq<char> {
    match value {
        VariableValue::Bool(b) => kv_text(key, if b {
            "true"@
        } else {
            "false"@
        }),
        VariableValue::Int(n) => kv_text(key, dec_int(n as int)),
        VariableValue::Str(v) => kv_text(key, v@),
        VariableValue::ListStr(l) => key + " ="@ + list_tail_text(l.deep_view(), l.len() as int),
    }
}

/// An optional string-valued assignment at indent 1, absent when the field
/// is absent.
pub open spec fn opt_kv_text(key: Seq<char>, v: Option<String>, width: int) -> Seq<char> {
    match v {
        Some(s) => wrap_spec(kv_text(key, s@), 1, width),
        None => Seq::empty(),
    }
}

/// The whole rendered text of a `rule` statement: the `rule <name>` line,
/// then each present field as an assignment at indent 1, in the fixed field
/// order.
pub open spec fn rule_text(rd: RuleDescriptor, width: int) -> Seq<char> {
    wrap_spec("rule "@ + rd.name@, 0, width) + wrap_spec(
        kv_text("command"@, rd.command@),
        1,
        width,
    ) + opt_kv_text("description"@, rd.description, width) + opt_kv_text(
        "depfile"@,
        rd.depfile,
        width,
    ) + (if rd.generator {
        wrap_spec(kv_text("generator"@, dec_int(1)), 1, width)
    } else {
        Seq::<char>::empty()
    }) + opt_kv_text("pool"@, rd.pool, width) + (if rd.restat {
        wrap_spec(kv_text("restat"@, dec_int(1)), 1, width)
    } else {
        Seq::<char>::empty()
    }) + opt_kv_text("rspfile"@, rd.rspfile, width) + opt_kv_text(
        "rspfile_content"@,
        rd.rspfile_content,
        width,
    ) + (if rd.deps.len() > 0 {
        wrap_spec(value_text("deps"@, VariableValue::ListStr(rd.deps)), 1, width)
    } else {
        Seq::<char>::empty()
    })
}

/// The separators and escaped tokens after the first in a space-joined list
/// of paths: ` token` for each of `l[1..n]`.
pub open spec fn esc_join_rest(l: Seq<Seq<char>>, n: int) -> Seq<char>
    decreases n,
{
    if n <= 1 {
        Seq::empty()
    } else {
        esc_join_rest(l, n - 1) + seq![' '] + escape_path_spec(l[n - 1])
    }
}

/// A non-empty list of path tokens, each escaped, joined by single spaces.
pub open spec fn esc_join(l: Seq<Seq<char>>) -> Seq<char> {
    escape_path_spec(l[0]) + esc_join_rest(l, l.len() as int)
}

/// The single logical `build` line: outputs (with implicit outputs after a
/// `|`), the rule, and inputs (implicit inputs after a `|`, order-only
/// inputs after a `||`), every path escaped.
pub open spec fn build_stmt_text(
    outputs: Seq<Seq<char>>,
    implicit_outputs: Seq<Seq<char>>,
    rule: Seq<char>,
    inputs: Seq<Seq<char>>,
    implicit: Seq<Seq<char>>,
    order_only: Seq<Seq<char>>,
) -> Seq<char> {
    "build "@ + esc_join(outputs) + (if implicit_outputs.len() > 0 {
        " | "@ + esc_join(implicit_outputs)
    } else {
        Seq::<char>::empty()
    }) + ": "@ + rule + " "@ + esc_join(inputs) + (if implicit.len() > 0 {
        " | "@ + esc_join(implicit)
    } else {
        Seq::<char>::empty()
    }) + (if order_only.len() > 0 {
        " || "@ + esc_join(order_only)
    } else {
        Seq::<char>::empty()
    })
}

/// One per-edge variable of a `build` statement: absent for an empty
/// fragment list, a scalar assignment for one fragment, a list assignment
/// for more.
pub open spec fn build_var_text(key: Seq<char>, vals: Seq<Seq<char>>, width: int) -> Seq<char> {
    if vals.len() == 0 {
        Seq::empty()
    } else if vals.len() == 1 {
        wrap_spec(kv_text(key, vals[0]), 1, width)
    } else {
        wrap_spec(key + " ="@ + list_tail_text(vals, vals.len() as int), 1, width)
    }
}

/// The per-edge variables of a `build` statement, in order, for the first
/// `n` entries.
pub open spec fn build_vars_text(vars: Seq<(String, Vec<String>)>, n: int, width: int) -> Seq<char>
    decreases n,
{
    if n <= 0 {
        Seq::empty()
    } else {
        build_vars_text(vars, n - 1, width) + build_var_text(
            vars[n - 1].0@,
            vars[n - 1].1.deep_view(),
            width,
        )
    }
}

/// The plain indented `  pool = <p>` or `  dyndep = <d>` line of a `build`
/// statement, absent when the option is absent.
pub open spec fn opt_plain_line(prefix: Seq<char>, v: Option<String>, width: int) -> Seq<char> {
    match v {
        Some(s) => wrap_spec(prefix + s@, 0, width),
        None => Seq::empty(),
    }
}

/// The whole rendered text of a `build` statement.
pub open spec fn build_text(
    outputs: Seq<Seq<char>>,
    rule: Seq<char>,
    inputs: Seq<Seq<char>>,
    implicit: Seq<Seq<char>>,
    order_only: Seq<Seq<char>>,
    variables: Option<Vec<(String, Vec<String>)>>,
    implicit_outputs: Seq<Seq<char>>,
    pool: Option<String>,
    dyndep: Option<String>,
    width: int,
) -> Seq<char> {
    wrap_spec(
        build_stmt_text(outputs, implicit_outputs, rule, inputs, implicit, order_only),
        0,
        width,
    ) + opt_plain_line("  pool = "@, pool, width) + opt_plain_line("  dyndep = "@, dyndep, width)
        + (match variables {
        Some(vs) => build_vars_text(vs@, vs@.len() as int, width),
        None => Seq::<char>::empty(),
    })
}

/// The rendered text of a comment: each wrapped piece of the text on its own
/// line, prefixed with `#`.
pub open spec fn comment_render(lines: Seq<Seq<char>>, n: int) -> Seq<char>
    decreases n,
{
    if n <= 0 {
        Seq::empty()
    } else {
        comment_render(lines, n - 1) + seq!['#'] + lines[n - 1] + seq!['\n']
    }
}

/// What `textwrap::wrap` returns for a text at a width, with word breaking
/// disabled and no hyphenation: a function of the text and width alone.
pub uninterp spec fn wrapped_lines(text: Seq<char>, width: int) -> Seq<Seq<char>>;

/// Word-wraps plain comment text at the given width.
///
/// Relies on `textwrap::wrap` with `break_words(false)` and
/// `WordSplitter::NoHyphenation`: the result is a pure function of the text
/// and the width.
#[verifier::external_body]
fn wrap_words(text: &String, width: usize) -> (r: Vec<String>)
    ensures
        r.deep_view() == wrapped_lines(text@, width as int),
{
    textwrap::wrap(
        text.as_str(),
        textwrap::Options::new(width).break_words(false).word_splitter(
            textwrap::WordSplitter::NoHyphenation,
        ),
    ).into_iter().map(|line| line.into_owned()).collect()
}

/// The width at which comment text is word-wrapped: two columns are
/// reserved for the `# ` prefix budget.
pub open spec fn comment_width(width: int) -> int {
    if width >= 2 {
        width - 2
    } else {
        0
    }
}

/// The rendered text of a whole comment statement.
pub open spec fn comment_text(text: Seq<char>, width: int) -> Seq<char> {
    comment_render(
        wrapped_lines(text, comment_width(width)),
        wrapped_lines(text, comment_width(width)).len() as int,
    )
}

/// The facade: holds the target column width and the output buffer that the
/// emitted statements accumulate into.
pub struct Writer {
    pub width: usize,
    pub output: Vec<char>,
}

impl Default for Writer {
    fn default() -> (w: Writer)
        ensures
            w.width == 78,
            w.contents() == Seq::<char>::empty(),
    {
        Writer { width: 78, output: Vec::new() }
    }
}

impl Writer {
    /// The text emitted so far.
    pub open spec fn contents(&self) -> Seq<char> {
        self.output@
    }

    /// A writer with the given target column width and nothing emitted yet.
    pub fn new(width: usize) -> (w: Writer)
        ensures
            w.width == width,
            w.contents() == Seq::<char>::empty(),
    {
        Writer { width, output: Vec::new() }
    }

    /// Emits a blank line.
    pub fn newline(&mut self)
        ensures
            final(self).width == old(self).width,
            final(self).contents() == old(self).contents() + seq!['\n'],
    {
        self.output.push('\n');
    }

    /// Emits `text` word-wrapped at the writer's width, as wrapping
    /// describes it: the text may only be broken at unescaped spaces, and
    /// every line but the last ends with the ` $` continuation marker.
    fn line_chars(&mut self, text: Vec<char>, indent: usize)
        requires
            2 * indent + 4 <= usize::MAX,
        ensures
            final(self).width == old(self).width,
            final(self).contents() == old(self).contents() + wrap_spec(
                text@,
                indent as int,
                old(self).width as int,
            ),
    {
        let lead: usize = 2 * indent;
        let cont: usize = 2 * indent + 4;
        wrap_append(&mut self.output, text, lead, cont, self.width);
    }

    /// Writes `text` word-wrapped at the writer's width.
    pub fn line(&mut self, text: &String, indent: Option<usize>)
        requires
            2 * indent_level(indent) + 4 <= usize::MAX,
        ensures
            final(self).width == old(self).width,
            final(self).contents() == old(self).contents() + wrap_spec(
                text@,
                indent_level(indent) as int,
                old(self).width as int,
            ),
    {
        let ind: usize = match indent {
            Some(i) => i,
            None => 0,
        };
        self.line_chars(str_chars(text.as_str()), ind);
    }

    /// Emits a comment: the text word-wrapped at `width - 2`, each piece on
    /// its own line behind `#`.
    pub fn comment(&mut self, text: String)
        ensures
            final(self).width == old(self).width,
            final(self).contents() == old(self).contents() + comment_text(
                text@,
                old(self).width as int,
            ),
    {
        let w: usize = if self.width >= 2 {
            self.width - 2
        } else {
            0
        };
        let lines = wrap_words(&text, w);
        let ghost all = lines.deep_view();
        let mut i: usize = 0;
        while i < lines.len()
            invariant
                i <= lines.len(),
                all == lines.deep_view(),
                self.width == old(self).width,
                self.contents() == old(self).contents() + comment_render(all, i as int),
            decreases lines.len() - i,
        {
            self.output.push('#');
            push_str_chars(&mut self.output, lines[i].as_str());
            self.output.push('\n');
            proof {
                assert(all[i as int] == lines@[i as int]@);
                assert(self.contents() =~= old(self).contents() + comment_render(
                    all,
                    i + 1 as int,
                ));
            }
            i = i + 1;
        }
        proof {
            assert(all.len() == lines@.len());
        }
    }

    /// Emits a `key = value` assignment at the given indent level; emits
    /// nothing when the value is absent.  List values are joined with single
    /// spaces, dropping empty fragments.
    pub fn variable(&mut self, key: String, value: Option<VariableValue>, indent: Option<usize>)
        requires
            2 * indent_level(indent) + 4 <= usize::MAX,
        ensures
            final(self).width == old(self).width,
            final(self).contents() == old(self).contents() + (match value {
                None => Seq::<char>::empty(),
                Some(v) => wrap_spec(
                    value_text(key@, v),
                    indent_level(indent) as int,
                    old(self).width as int,
                ),
            }),
    {
        let ind: usize = match indent {
            Some(i) => i,
            None => 0,
        };
        match value {
            None => {},
            Some(VariableValue::Bool(b)) => {
                let mut text: Vec<char> = Vec::new();
                push_str_chars(&mut text, key.as_str());
                push_str_chars(&mut text, " = ");
                push_str_chars(&mut text, if b { "true" } else { "false" });
                self.line_chars(text, ind);
            },
            Some(VariableValue::Int(n)) => {
                let mut text: Vec<char> = Vec::new();
                push_str_chars(&mut text, key.as_str());
                push_str_chars(&mut text, " = ");
                push_dec_isize(&mut text, n);
                self.line_chars(text, ind);
            },
            Some(VariableValue::Str(v)) => {
                let mut text: Vec<char> = Vec::new();
                push_str_chars(&mut text, key.as_str());
                push_str_chars(&mut text, " = ");
                push_str_chars(&mut text, v.as_str());
                self.line_chars(text, ind);
            },
            Some(VariableValue::ListStr(l)) => {
                let mut text: Vec<char> = Vec::new();
                push_str_chars(&mut text, key.as_str());
                push_str_chars(&mut text, " =");
                push_list_tail(&mut text, &l);
                self.line_chars(text, ind);
            },
        }
    }

    /// Emits a `pool <name>` statement with its `depth` assignment.
    pub fn pool(&mut self, name: String, depth: isize)
        ensures
            final(self).width == old(self).width,
            final(self).contents() == old(self).contents() + wrap_spec(
                "pool "@ + name@,
                0,
                old(self).width as int,
            ) + wrap_spec(
                kv_text("depth"@, dec_int(depth as int)),
                1,
                old(self).width as int,
            ),
    {
        let mut text: Vec<char> = Vec::new();
        push_str_chars(&mut text, "pool ");
        push_str_chars(&mut text, name.as_str());
        self.line_chars(text, 0);
        self.variable("depth".to_owned(), Some(VariableValue::Int(depth)), Some(1));
    }

    /// Emits a `rule <name>` statement followed by each present descriptor
    /// field as an assignment at indent 1, in the fixed field order.  Fails
    /// with `MissingRequiredField`, emitting nothing, iff the descriptor's
    /// command is empty.
    pub fn rule(&mut self, rule_descriptor: RuleDescriptor) -> (r: Result<(), NinjaError>)
        ensures
            final(self).width == old(self).width,
            rule_descriptor.command@.len() == 0 ==> r == Err::<(), NinjaError>(
                NinjaError::MissingRequiredField,
            ) && final(self).contents() == old(self).contents(),
            rule_descriptor.command@.len() > 0 ==> r == Ok::<(), NinjaError>(())
                && final(self).contents() == old(self).contents() + rule_text(
                rule_descriptor,
                old(self).width as int,
            ),
    {
        if rule_descriptor.command.as_str().is_empty() {
            return Err(NinjaError::MissingRequiredField);
        }
        let ghost w = old(self).width as int;
        let ghost base = old(self).contents();
        let ghost rd = rule_descriptor;
        let mut text: Vec<char> = Vec::new();
        push_str_chars(&mut text, "rule ");
        push_str_chars(&mut text, rule_descriptor.name.as_str());
        proof {
            assert(text@ =~= "rule "@ + rd.name@);
        }
        self.line_chars(text, 0);
        let ghost mut acc = wrap_spec("rule "@ + rd.name@, 0, w);
        self.variable(
            "command".to_owned(),
            Some(VariableValue::Str(rule_descriptor.command)),
            Some(1),
        );
        proof {
            lemma_append_assoc(base, acc, wrap_spec(kv_text("command"@, rd.command@), 1, w));
            acc = acc + wrap_spec(kv_text("command"@, rd.command@), 1, w);
            assert(self.contents() == base + acc);
        }
        match rule_descriptor.description {
            Some(descr) => {
                self.variable("description".to_owned(), Some(VariableValue::Str(descr)), Some(1));
            },
            None => {},
        }
        proof {
            lemma_append_assoc(base, acc, opt_kv_text("description"@, rd.description, w));
            lemma_append_empty(base, acc);
            acc = acc + opt_kv_text("description"@, rd.description, w);
            assert(self.contents() == base + acc);
        }
        match rule_descriptor.depfile {
            Some(depfile) => {
                self.variable("depfile".to_owned(), Some(VariableValue::Str(depfile)), Some(1));
            },
            None => {},
        }
        proof {
            lemma_append_assoc(base, acc, opt_kv_text("depfile"@, rd.depfile, w));
            lemma_append_empty(base, acc);
            acc = acc + opt_kv_text("depfile"@, rd.depfile, w);
            assert(self.contents() == base + acc);
        }
        if rule_descriptor.generator {
            self.variable("generator".to_owned(), Some(VariableValue::Int(1)), Some(1));
        }
        proof {
            lemma_append_assoc(base, acc, wrap_spec(kv_text("generator"@, dec_int(1)), 1, w));
            lemma_append_empty(base, acc);
            acc = acc + (if rd.generator {
                wrap_spec(kv_text("generator"@, dec_int(1)), 1, w)
            } else {
                Seq::<char>::empty()
            });
            assert(self.contents() == base + acc);
        }
        match rule_descriptor.pool {
            Some(pool) => {
                self.variable("pool".to_owned(), Some(VariableValue::Str(pool)), Some(1));
            },
            None => {},
        }
        proof {
            lemma_append_assoc(base, acc, opt_kv_text("pool"@, rd.pool, w));
            lemma_append_empty(base, acc);
            acc = acc + opt_kv_text("pool"@, rd.pool, w);
            assert(self.contents() == base + acc);
        }
        if rule_descriptor.restat {
            self.variable("restat".to_owned(), Some(VariableValue::Int(1)), Some(1));
        }
        proof {
            lemma_append_assoc(base, acc, wrap_spec(kv_text("restat"@, dec_int(1)), 1, w));
            lemma_append_empty(base, acc);
            acc = acc + (if rd.restat {
                wrap_spec(kv_text("restat"@, dec_int(1)), 1, w)
            } else {
                Seq::<char>::empty()
            });
            assert(self.contents() == base + acc);
        }
        match rule_descriptor.rspfile {
            Some(rspfile) => {
                self.variable("rspfile".to_owned(), Some(VariableValue::Str(rspfile)), Some(1));
            },
            None => {},
        }
        proof {
            lemma_append_assoc(base, acc, opt_kv_text("rspfile"@, rd.rspfile, w));
            lemma_append_empty(base, acc);
            acc = acc + opt_kv_text("rspfile"@, rd.rspfile, w);
            assert(self.contents() == base + acc);
        }
        match rule_descriptor.rspfile_content {
            Some(rspfile_content) => {
                self.variable(
                    "rspfile_content".to_owned(),
                    Some(VariableValue::Str(rspfile_content)),
                    Some(1),
                );
            },
            None => {},
        }
        proof {
            lemma_append_assoc(base, acc, opt_kv_text("rspfile_content"@, rd.rspfile_content, w));
            lemma_append_empty(base, acc);
            acc = acc + opt_kv_text("rspfile_content"@, rd.rspfile_content, w);
            assert(self.contents() == base + acc);
        }
        if rule_descriptor.deps.len() > 0 {
            self.variable(
                "deps".to_owned(),
                Some(VariableValue::ListStr(rule_descriptor.deps)),
                Some(1),
            );
        }
        proof {
            lemma_append_assoc(
                base,
                acc,
                wrap_spec(value_text("deps"@, VariableValue::ListStr(rd.deps)), 1, w),
            );
            lemma_append_empty(base, acc);
            acc = acc + (if rd.deps.len() > 0 {
                wrap_spec(value_text("deps"@, VariableValue::ListStr(rd.deps)), 1, w)
            } else {
                Seq::<char>::empty()
            });
            assert(self.contents() == base + acc);
            assert(acc == rule_text(rd, w));
        }
        Ok(())
    }

    /// Emits a `build` statement: the outputs, rule and inputs on one
    /// wrapped logical line with every path escaped, then the optional pool
    /// and dyndep lines, then the per-edge variables.  Returns the outputs
    /// unchanged so callers can chain them.  Fails with
    /// `EmptyBuildOutputsOrInputs`, emitting nothing, iff there are no
    /// outputs or no inputs.
    #[verifier::rlimit(50)]
    pub fn build(
        &mut self,
        outputs: Vec<String>,
        rule: String,
        inputs: Vec<String>,
        implicit: &Vec<String>,
        order_only: &Vec<String>,
        variables: Option<Vec<(String, Vec<String>)>>,
        implicit_outputs: Vec<String>,
        pool: Option<String>,
        dyndep: Option<String>,
    ) -> (r: Result<Vec<String>, NinjaError>)
        ensures
            final(self).width == old(self).width,
            (outputs@.len() == 0 || inputs@.len() == 0) ==> r == Err::<Vec<String>, NinjaError>(
                NinjaError::EmptyBuildOutputsOrInputs,
            ) && final(self).contents() == old(self).contents(),
            (outputs@.len() > 0 && inputs@.len() > 0) ==> r == Ok::<Vec<String>, NinjaError>(
                outputs,
            ) && final(self).contents() == old(self).contents() + build_text(
                outputs.deep_view(),
                rule@,
                inputs.deep_view(),
                implicit.deep_view(),
                order_only.deep_view(),
                variables,
                implicit_outputs.deep_view(),
                pool,
                dyndep,
                old(self).width as int,
            ),
    {
        if outputs.len() == 0 || inputs.len() == 0 {
            return Err(NinjaError::EmptyBuildOutputsOrInputs);
        }
        let mut text: Vec<char> = Vec::new();
        push_str_chars(&mut text, "build ");
        push_esc_join(&mut text, &outputs);
        if implicit_outputs.len() > 0 {
            push_str_chars(&mut text, " | ");
            push_esc_join(&mut text, &implicit_outputs);
        }
        push_str_chars(&mut text, ": ");
        push_str_chars(&mut text, rule.as_str());
        push_str_chars(&mut text, " ");
        push_esc_join(&mut text, &inputs);
        if implicit.len() > 0 {
            push_str_chars(&mut text, " | ");
            push_esc_join(&mut text, implicit);
        }
        if order_only.len() > 0 {
            push_str_chars(&mut text, " || ");
            push_esc_join(&mut text, order_only);
        }
        proof {
            assert(text@ =~= build_stmt_text(
                outputs.deep_view(),
                implicit_outputs.deep_view(),
                rule@,
                inputs.deep_view(),
                implicit.deep_view(),
                order_only.deep_view(),
            ));
        }
        self.line_chars(text, 0);
        match &pool {
            Some(p) => {
                let mut pline: Vec<char> = Vec::new();
                push_str_chars(&mut pline, "  pool = ");
                push_str_chars(&mut pline, p.as_str());
                self.line_chars(pline, 0);
            },
            None => {},
        }
        match &dyndep {
            Some(d) => {
                let mut dline: Vec<char> = Vec::new();
                push_str_chars(&mut dline, "  dyndep = ");
                push_str_chars(&mut dline, d.as_str());
                self.line_chars(dline, 0);
            },
            None => {},
        }
        match &variables {
            Some(vs) => {
                let ghost pre = self.contents();
                let mut i: usize = 0;
                while i < vs.len()
                    invariant
                        i <= vs@.len(),
                        self.width == old(self).width,
                        self.contents() == pre + build_vars_text(
                            vs@,
                            i as int,
                            old(self).width as int,
                        ),
                    decreases vs.len() - i,
                {
                    self.emit_build_var(&vs[i].0, &vs[i].1);
                    proof {
                        assert(self.contents() =~= pre + build_vars_text(
                            vs@,
                            i + 1 as int,
                            old(self).width as int,
                        ));
                    }
                    i = i + 1;
                }
            },
            None => {},
        }
        proof {
            assert(self.contents() =~= old(self).contents() + build_text(
                outputs.deep_view(),
                rule@,
                inputs.deep_view(),
                implicit.deep_view(),
                order_only.deep_view(),
                variables,
                implicit_outputs.deep_view(),
                pool,
                dyndep,
                old(self).width as int,
            ));
        }
        Ok(outputs)
    }

    /// Emits one per-edge variable of a `build` statement.
    fn emit_build_var(&mut self, key: &String, vals: &Vec<String>)
        ensures
            final(self).width == old(self).width,
            final(self).contents() == old(self).contents() + build_var_text(
                key@,
                vals.deep_view(),
                old(self).width as int,
            ),
    {
        if vals.len() == 0 {
            return ;
        }
        let mut text: Vec<char> = Vec::new();
        push_str_chars(&mut text, key.as_str());
        if vals.len() == 1 {
            push_str_chars(&mut text, " = ");
            push_str_chars(&mut text, vals[0].as_str());
        } else {
            push_str_chars(&mut text, " =");
            push_list_tail(&mut text, vals);
        }
        self.line_chars(text, 1);
    }

    /// Emits the statement that inserts another build file into the current
    /// scope; the path is emitted verbatim.
    pub fn import_file(&mut self, path: String)
        ensures
            final(self).width == old(self).width,
            final(self).contents() == old(self).contents() + wrap_spec(
                import_keyword() + path@,
                0,
                old(self).width as int,
            ),
    {
        let mut text: Vec<char> = Vec::new();
        push_import_keyword(&mut text);
        push_str_chars(&mut text, path.as_str());
        self.line_chars(text, 0);
    }

    /// Emits a `subninja <path>` statement; the path is emitted verbatim.
    pub fn subninja(&mut self, path: String)
        ensures
            final(self).width == old(self).width,
            final(self).contents() == old(self).contents() + wrap_spec(
                "subninja "@ + path@,
                0,
                old(self).width as int,
            ),
    {
        let mut text: Vec<char> = Vec::new();
        push_str_chars(&mut text, "subninja ");
        push_str_chars(&mut text, path.as_str());
        self.line_chars(text, 0);
    }

    /// Emits a `default` statement naming the given targets, joined by
    /// single spaces and emitted verbatim.  Fails with
    /// `EmptyDefaultTargets`, emitting nothing, iff no path is given.
    pub fn default_targets(&mut self, paths: Vec<String>) -> (r: Result<(), NinjaError>)
        ensures
            final(self).width == old(self).width,
            paths@.len() == 0 ==> r == Err::<(), NinjaError>(NinjaError::EmptyDefaultTargets)
                && final(self).contents() == old(self).contents(),
            paths@.len() > 0 ==> r == Ok::<(), NinjaError>(()) && final(self).contents() == old(
                self,
            ).contents() + wrap_spec(
                "default "@ + join_spaces(paths.deep_view()),
                0,
                old(self).width as int,
            ),
    {
        if paths.len() == 0 {
            return Err(NinjaError::EmptyDefaultTargets);
        }
        let mut text: Vec<char> = Vec::new();
        push_str_chars(&mut text, "default ");
        push_str_chars(&mut text, paths[0].as_str());
        let ghost base = text@;
        let mut j: usize = 1;
        while j < paths.len()
            invariant
                1 <= j <= paths@.len(),
                text@ == base + join_spaces_rest(paths.deep_view(), j as int),
            decreases paths.len() - j,
        {
            text.push(' ');
            push_str_chars(&mut text, paths[j].as_str());
            proof {
                assert(text@ =~= base + join_spaces_rest(paths.deep_view(), j + 1 as int));
            }
            j = j + 1;
        }
        proof {
            assert(text@ =~= "default "@ + join_spaces(paths.deep_view()));
        }
        self.line_chars(text, 0);
        Ok(())
    }

    /// Finishes writing and hands back the accumulated text; the caller owns
    /// delivering it to its sink.
    pub fn close(self) -> (r: String)
        ensures
            r@ == self.contents(),
    {
        chars_string(&self.output)
    }
}

/// The keyword, with its trailing space, of the statement that inserts
/// another build file into the current scope.
pub open spec fn import_keyword() -> Seq<char> {
    seq!['i', 'n', 'c', 'l', 'u', 'd', 'e', ' ']
}

/// Appends the file-insertion keyword and its trailing space to `out`.
fn push_import_keyword(out: &mut Vec<char>)
    ensures
        final(out)@ == old(out)@ + import_keyword(),
{
    out.push('i');
    out.push('n');
    out.push('c');
    out.push('l');
    out.push('u');
    out.push('d');
    out.push('e');
    out.push(' ');
    proof {
        assert(out@ =~= old(out)@ + import_keyword());
    }
}

/// Concatenation of character sequences is associative.
proof fn lemma_append_assoc(a: Seq<char>, b: Seq<char>, c: Seq<char>)
    ensures
        (a + b) + c == a + (b + c),
{
    assert((a + b) + c =~= a + (b + c));
}

/// The empty sequence is a right identity of concatenation.
proof fn lemma_append_empty(a: Seq<char>, b: Seq<char>)
    ensures
        (a + b) + Seq::<char>::empty() == a + (b + Seq::<char>::empty()),
        b + Seq::<char>::empty() == b,
{
    assert(b + Seq::<char>::empty() =~= b);
    assert((a + b) + Seq::<char>::empty() =~= a + (b + Seq::<char>::empty()));
}

/// The indent level an optional indent argument denotes: absent means zero.
pub open spec fn indent_level(indent: Option<usize>) -> int {
    match indent {
        Some(i) => i as int,
        None => 0,
    }
}

/// The separators and tokens after the first in a space-joined list of
/// verbatim paths.
pub open spec fn join_spaces_rest(l: Seq<Seq<char>>, n: int) -> Seq<char>
    decreases n,
{
    if n <= 1 {
        Seq::empty()
    } else {
        join_spaces_rest(l, n - 1) + seq![' '] + l[n - 1]
    }
}

/// A non-empty list of verbatim paths joined by single spaces.
pub open spec fn join_spaces(l: Seq<Seq<char>>) -> Seq<char> {
    l[0] + join_spaces_rest(l, l.len() as int)
}

/// Appends ` fragment` for each non-empty fragment to `out`.
fn push_list_tail(out: &mut Vec<char>, l: &Vec<String>)
    ensures
        final(out)@ == old(out)@ + list_tail_text(l.deep_view(), l.len() as int),
{
    let mut j: usize = 0;
    while j < l.len()
        invariant
            j <= l@.len(),
            out@ == old(out)@ + list_tail_text(l.deep_view(), j as int),
        decreases l.len() - j,
    {
        if !l[j].as_str().is_empty() {
            out.push(' ');
            push_str_chars(out, l[j].as_str());
        }
        proof {
            assert(out@ =~= old(out)@ + list_tail_text(l.deep_view(), j + 1 as int));
        }
        j = j + 1;
    }
}

/// Appends the escaped, space-joined rendering of a non-empty path list to
/// `out`.
fn push_esc_join(out: &mut Vec<char>, l: &Vec<String>)
    requires
        l@.len() > 0,
    ensures
        final(out)@ == old(out)@ + esc_join(l.deep_view()),
{
    push_escaped_path(out, &l[0]);
    let ghost base = out@;
    let mut j: usize = 1;
    while j < l.len()
        invariant
            1 <= j <= l@.len(),
            out@ == base + esc_join_rest(l.deep_view(), j as int),
        decreases l.len() - j,
    {
        out.push(' ');
        push_escaped_path(out, &l[j]);
        proof {
            assert(out@ =~= base + esc_join_rest(l.deep_view(), j + 1 as int));
        }
        j = j + 1;
    }
}

} // verus!
