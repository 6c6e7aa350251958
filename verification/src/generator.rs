use vstd::prelude::*;
use vstd::string::StrSliceExecFns;
use vstd::string::StringExecFns;

use crate::value::arr_model;
use crate::value::arr_wf;
use crate::value::ent_model;
use crate::value::lemma_arr_wf_index;
use crate::value::lemma_obj_wf_index;
use crate::value::Json;
use crate::value::JsonNumber;
use crate::value::JsonValue;

verus! {

/// What one character of a string becomes in its quoted form: quote and
/// backslash, and the five short control escapes; everything else stands
/// for itself.
pub open spec fn esc_char(c: char) -> Seq<char> {
    if c == '"' {
        seq!['\\', '"']
    } else if c == '\\' {
        seq!['\\', '\\']
    } else if c == '\n' {
        seq!['\\', 'n']
    } else if c == '\r' {
        seq!['\\', 'r']
    } else if c == '\t' {
        seq!['\\', 't']
    } else if c == '\u{c}' {
        seq!['\\', 'f']
    } else if c == '\u{8}' {
        seq!['\\', 'b']
    } else {
        seq![c]
    }
}

/// A text with each character escaped.
pub open spec fn esc_text(s: Seq<char>) -> Seq<char>
    decreases s.len(),
{
    if s.len() == 0 {
        Seq::empty()
    } else {
        esc_char(s[0]) + esc_text(s.drop_first())
    }
}

/// The quoted form of a string: escaped, between double quotes.
pub open spec fn quoted(s: Seq<char>) -> Seq<char> {
    seq!['"'] + esc_text(s) + seq!['"']
}

/// Escaping goes character by character from either end.
pub proof fn lemma_esc_text_snoc(s: Seq<char>, c: char)
    ensures
        esc_text(s.push(c)) == esc_text(s) + esc_char(c),
    decreases s.len(),
{
    if s.len() == 0 {
        assert(s.push(c).drop_first() =~= Seq::<char>::empty());
        assert(s.push(c)[0] == c);
        assert(esc_text(s.push(c).drop_first()) == Seq::<char>::empty());
        assert(esc_text(s.push(c)) =~= esc_char(c));
        assert(esc_text(s) + esc_char(c) =~= esc_char(c));
    } else {
        lemma_esc_text_snoc(s.drop_first(), c);
        assert(s.push(c).drop_first() =~= s.drop_first().push(c));
        assert(s.push(c)[0] == s[0]);
        assert(esc_char(s[0]) + (esc_text(s.drop_first()) + esc_char(c)) =~= (esc_char(s[0])
            + esc_text(s.drop_first())) + esc_char(c));
    }
}

pub open spec fn digit_char(d: nat) -> char {
    ((48 + d) as u8) as char
}

/// The decimal digits of `m`, most significant first.
pub open spec fn dec_digits(m: nat) -> Seq<char>
    decreases m,
{
    if m < 10 {
        seq![digit_char(m)]
    } else {
        dec_digits(m / 10).push(digit_char(m % 10))
    }
}

/// `n` spaces or zeros.
pub open spec fn fill(c: char, n: nat) -> Seq<char>
    decreases n,
{
    if n == 0 {
        Seq::empty()
    } else {
        fill(c, (n - 1) as nat).push(c)
    }
}

/// The canonical decimal text of a number: the digits with the decimal
/// point placed by the exponent, no exponent marker ever written.
pub open spec fn num_text(n: JsonNumber) -> Seq<char> {
    let d = dec_digits(n.mantissa as nat);
    let l = d.len() as int;
    let core = if n.exp >= 0 {
        d + fill('0', n.exp as nat)
    } else if l + n.exp > 0 {
        d.subrange(0, l + n.exp) + seq!['.'] + d.subrange(l + n.exp, l)
    } else {
        seq!['0', '.'] + fill('0', (0 - (l + n.exp)) as nat) + d
    };
    if n.neg {
        seq!['-'] + core
    } else {
        core
    }
}

/// A line break followed by the indentation of depth `dent`.
pub open spec fn nl_text(spaces: nat, dent: nat) -> Seq<char> {
    seq!['\n'] + fill(' ', spaces * dent)
}

/// The minified text of a value: no whitespace outside string literals,
/// object entries as `"key":value`, keys in their sorted order.
pub open spec fn min_text(j: Json) -> Seq<char>
    decreases j, 1int,
{
    match j {
        Json::Null => "null"@,
        Json::Boolen(b) => if b {
            "true"@
        } else {
            "false"@
        },
        Json::Number(n) => num_text(n),
        Json::String(s) => quoted(s),
        Json::Array(elems) => if elems.len() == 0 {
            "[]"@
        } else {
            seq!['['] + min_text(elems[0]) + min_items(elems.drop_first()) + seq![']']
        },
        Json::Object(entries) => if entries.len() == 0 {
            "{}"@
        } else {
            seq!['{'] + quoted(entries[0].0) + seq![':'] + min_text(entries[0].1) + min_entries(
                entries.drop_first(),
            ) + seq!['}']
        },
    }
}

/// The later elements of a minified array, each after its comma.
pub open spec fn min_items(elems: Seq<Json>) -> Seq<char>
    decreases elems, 0int,
{
    if elems.len() == 0 {
        Seq::empty()
    } else {
        seq![','] + min_text(elems[0]) + min_items(elems.drop_first())
    }
}

/// The later entries of a minified object, each after its comma.
pub open spec fn min_entries(entries: Seq<(Seq<char>, Json)>) -> Seq<char>
    decreases entries, 0int,
{
    if entries.len() == 0 {
        Seq::empty()
    } else {
        seq![','] + quoted(entries[0].0) + seq![':'] + min_text(entries[0].1) + min_entries(
            entries.drop_first(),
        )
    }
}

/// The indented text of a value at depth `dent`: a nonempty array or object
/// opens a new line per element one level deeper, and closes on a line at
/// its own depth; an empty one stays on its line.
pub open spec fn pretty_text(j: Json, spaces: nat, dent: nat) -> Seq<char>
    decreases j, 1int,
{
    match j {
        Json::Null => "null"@,
        Json::Boolen(b) => if b {
            "true"@
        } else {
            "false"@
        },
        Json::Number(n) => num_text(n),
        Json::String(s) => quoted(s),
        Json::Array(elems) => if elems.len() == 0 {
            "[]"@
        } else {
            seq!['['] + nl_text(spaces, dent + 1) + pretty_text(elems[0], spaces, dent + 1)
                + pretty_items(elems.drop_first(), spaces, dent + 1) + nl_text(spaces, dent)
                + seq![']']
        },
        Json::Object(entries) => if entries.len() == 0 {
            "{}"@
        } else {
            seq!['{'] + nl_text(spaces, dent + 1) + quoted(entries[0].0) + seq![':', ' ']
                + pretty_text(entries[0].1, spaces, dent + 1) + pretty_entries(
                entries.drop_first(),
                spaces,
                dent + 1,
            ) + nl_text(spaces, dent) + seq!['}']
        },
    }
}

/// The later elements of an indented array: `, ` ends the previous line,
/// then each element on its own line.
pub open spec fn pretty_items(elems: Seq<Json>, spaces: nat, dent: nat) -> Seq<char>
    decreases elems, 0int,
{
    if elems.len() == 0 {
        Seq::empty()
    } else {
        seq![',', ' '] + nl_text(spaces, dent) + pretty_text(elems[0], spaces, dent)
            + pretty_items(elems.drop_first(), spaces, dent)
    }
}

/// The later entries of an indented object, each on its own line.
pub open spec fn pretty_entries(entries: Seq<(Seq<char>, Json)>, spaces: nat, dent: nat) -> Seq<
    char,
>
    decreases entries, 0int,
{
    if entries.len() == 0 {
        Seq::empty()
    } else {
        seq![','] + nl_text(spaces, dent) + quoted(entries[0].0) + seq![':', ' '] + pretty_text(
            entries[0].1,
            spaces,
            dent,
        ) + pretty_entries(entries.drop_first(), spaces, dent)
    }
}

/// How many levels of nesting stand below a value: what the generator's
/// indentation depth can grow by while writing it.
pub open spec fn height_of(j: Json) -> nat
    decreases j, 1int,
{
    match j {
        Json::Array(elems) => 1 + arr_height(elems),
        Json::Object(entries) => 1 + ent_height(entries),
        _ => 0,
    }
}

pub open spec fn arr_height(elems: Seq<Json>) -> nat
    decreases elems, 0int,
{
    if elems.len() == 0 {
        0
    } else if height_of(elems[0]) >= arr_height(elems.drop_first()) {
        height_of(elems[0])
    } else {
        arr_height(elems.drop_first())
    }
}

pub open spec fn ent_height(entries: Seq<(Seq<char>, Json)>) -> nat
    decreases entries, 0int,
{
    if entries.len() == 0 {
        0
    } else if height_of(entries[0].1) >= ent_height(entries.drop_first()) {
        height_of(entries[0].1)
    } else {
        ent_height(entries.drop_first())
    }
}

/// The three moves of the indentation state machine: enter a nested level,
/// leave it, or stay and only break the line.
pub enum Tab {
    Right,
    Left,
    Stay,
}

/// The serializer: an output buffer, the output mode, and the indentation
/// state.
pub struct Generator {
    code: String,
    minify: bool,
    dent: usize,
    spaces: u8,
}

/// Appends the decimal digits of `m`, most significant first.
fn push_digits(buf: &mut String, m: u64)
    ensures
        final(buf)@ == old(buf)@ + dec_digits(m as nat),
    decreases m,
{
    if m < 10 {
        buf.push((48 + (m as u8)) as char);
        proof {
            assert(final(buf)@ =~= old(buf)@ + dec_digits(m as nat));
        }
    } else {
        push_digits(buf, m / 10);
        buf.push((48 + ((m % 10) as u8)) as char);
        proof {
            assert(final(buf)@ =~= old(buf)@ + dec_digits(m as nat));
        }
    }
}

impl Generator {
    /// The output written so far.
    pub closed spec fn out(self) -> Seq<char> {
        self.code@
    }

    /// Whether the output is minified.
    pub closed spec fn is_min(self) -> bool {
        self.minify
    }

    /// The number of spaces per indentation level.
    pub closed spec fn step(self) -> nat {
        self.spaces as nat
    }

    /// The current indentation depth.
    pub closed spec fn depth(self) -> nat {
        self.dent as nat
    }

    pub fn new(minify: bool, spaces: u8) -> (r: Generator)
        ensures
            r.out() == Seq::<char>::empty(),
            r.is_min() == minify,
            r.step() == spaces as nat,
            r.depth() == 0,
    {
        Generator { code: String::new(), minify, dent: 0, spaces }
    }

    /// Hands out the finished text.
    pub fn value(self) -> (r: String)
        ensures
            r@ == self.out(),
    {
        self.code
    }

    /// Appends raw text to the output.
    pub fn write(&mut self, s: &str)
        ensures
            final(self).out() == old(self).out() + s@,
            final(self).is_min() == old(self).is_min(),
            final(self).step() == old(self).step(),
            final(self).depth() == old(self).depth(),
    {
        self.code.append(s);
    }

    /// Appends one line break.
    pub fn ln(&mut self)
        ensures
            final(self).out() == old(self).out().push('\n'),
            final(self).is_min() == old(self).is_min(),
            final(self).step() == old(self).step(),
            final(self).depth() == old(self).depth(),
    {
        self.code.push('\n');
    }

    /// Moves the indentation depth as `tab` says and, unless minifying,
    /// breaks the line and indents to the new depth.
    pub fn new_line(&mut self, tab: Tab)
        requires
            tab is Right ==> old(self).depth() < usize::MAX,
        ensures
            final(self).is_min() == old(self).is_min(),
            final(self).step() == old(self).step(),
            final(self).depth() == (match tab {
                Tab::Right => old(self).depth() + 1,
                Tab::Left => if old(self).depth() > 0 {
                    (old(self).depth() - 1) as nat
                } else {
                    0
                },
                Tab::Stay => old(self).depth(),
            }),
            final(self).out() == old(self).out() + (if old(self).is_min() {
                Seq::<char>::empty()
            } else {
                nl_text(old(self).step(), final(self).depth())
            }),
    {
        match tab {
            Tab::Stay => (),
            Tab::Left => {
                if self.dent > 0 {
                    self.dent = self.dent - 1;
                }
            },
            Tab::Right => {
                self.dent = self.dent + 1;
            },
        }
        if !self.minify {
            self.ln();
            let ghost base = self.code@;
            let ghost dd = self.dent as nat;
            let ghost sp = self.spaces as nat;
            let mut k: usize = 0;
            proof {
                assert(base =~= base + fill(' ', sp * (k as nat)));
            }
            while k < self.dent
                invariant
                    k <= self.dent,
                    self.dent as nat == dd,
                    self.spaces as nat == sp,
                    self.minify == old(self).minify,
                    self.code@ == base + fill(' ', sp * (k as nat)),
                decreases self.dent - k,
            {
                let mut j: u8 = 0;
                while j < self.spaces
                    invariant
                        j <= self.spaces,
                        self.dent as nat == dd,
                        self.spaces as nat == sp,
                        self.minify == old(self).minify,
                        self.code@ == base + fill(' ', sp * (k as nat) + j as nat),
                    decreases self.spaces - j,
                {
                    self.code.push(' ');
                    j = j + 1;
                }
                k = k + 1;
                proof {
                    assert(sp * (k as nat) == sp * (k - 1) + sp) by (nonlinear_arith);
                }
            }
            proof {
                assert(self.code@ == base + fill(' ', sp * dd));
            }
        }
    }

    /// Appends the quoted, escaped form of `s`.
    pub fn write_string(&mut self, s: &str)
        ensures
            final(self).out() == old(self).out() + quoted(s@),
            final(self).is_min() == old(self).is_min(),
            final(self).step() == old(self).step(),
            final(self).depth() == old(self).depth(),
    {
        self.code.push('"');
        let len = s.unicode_len();
        let mut i: usize = 0;
        proof {
            assert(s@.take(0) =~= Seq::<char>::empty());
            assert(self.code@ =~= old(self).code@.push('"') + esc_text(s@.take(0)));
        }
        while i < len
            invariant
                i <= len,
                len as nat == s@.len(),
                self.code@ == old(self).code@.push('"') + esc_text(s@.take(i as int)),
                self.minify == old(self).minify,
                self.spaces == old(self).spaces,
                self.dent == old(self).dent,
            decreases len - i,
        {
            let c = s.get_char(i);
            let ghost done = s@.take(i as int);
            if c == '\\' || c == '"' {
                self.code.push('\\');
                self.code.push(c);
            } else if c == '\n' {
                self.code.push('\\');
                self.code.push('n');
            } else if c == '\r' {
                self.code.push('\\');
                self.code.push('r');
            } else if c == '\t' {
                self.code.push('\\');
                self.code.push('t');
            } else if c == '\u{c}' {
                self.code.push('\\');
                self.code.push('f');
            } else if c == '\u{8}' {
                self.code.push('\\');
                self.code.push('b');
            } else {
                self.code.push(c);
            }
            i = i + 1;
            proof {
                lemma_esc_text_snoc(done, c);
                assert(s@.take(i as int) =~= done.push(c));
                assert(self.code@ =~= old(self).code@.push('"') + esc_text(s@.take(i as int)));
            }
        }
        proof {
            assert(s@.take(len as int) =~= s@);
        }
        self.code.push('"');
        proof {
            assert(self.code@ =~= old(self).code@ + quoted(s@));
        }
    }

    /// Appends the decimal text of a number in normal form.
    fn write_number(&mut self, n: JsonNumber)
        requires
            n.norm(),
        ensures
            final(self).out() == old(self).out() + num_text(n),
            final(self).is_min() == old(self).is_min(),
            final(self).step() == old(self).step(),
            final(self).depth() == old(self).depth(),
    {
        if n.neg {
            self.code.push('-');
        }
        let ghost signed = self.code@;
        let mut digits = String::new();
        push_digits(&mut digits, n.mantissa);
        proof {
            assert(digits@ =~= dec_digits(n.mantissa as nat));
        }
        let dlen = digits.unicode_len();
        if n.exp >= 0 {
            self.code.append(digits.as_str());
            let ghost whole = self.code@;
            let mut k: i32 = 0;
            while k < n.exp
                invariant
                    0 <= k <= n.exp,
                    self.code@ == whole + fill('0', k as nat),
                    self.minify == old(self).minify,
                    self.spaces == old(self).spaces,
                    self.dent == old(self).dent,
                decreases n.exp - k,
            {
                self.code.push('0');
                k = k + 1;
            }
            proof {
                assert(self.code@ =~= old(self).code@ + num_text(n));
            }
        } else {
            let e = (-(n.exp)) as usize;
            if dlen > e {
                let head = digits.as_str().substring_char(0, dlen - e);
                self.code.append(head);
                self.code.push('.');
                let tail = digits.as_str().substring_char(dlen - e, dlen);
                self.code.append(tail);
                proof {
                    assert(self.code@ =~= old(self).code@ + num_text(n));
                }
            } else {
                self.code.push('0');
                self.code.push('.');
                let ghost opened = self.code@;
                let gap = e - dlen;
                let mut k: usize = 0;
                while k < gap
                    invariant
                        k <= gap,
                        self.code@ == opened + fill('0', k as nat),
                        self.minify == old(self).minify,
                        self.spaces == old(self).spaces,
                        self.dent == old(self).dent,
                    decreases gap - k,
                {
                    self.code.push('0');
                    k = k + 1;
                }
                self.code.append(digits.as_str());
                proof {
                    assert(self.code@ =~= old(self).code@ + num_text(n));
                }
            }
        }
    }

    /// Appends the text of `json`: minified or indented at the current
    /// depth, as this generator was configured.
    pub fn write_json(&mut self, json: &JsonValue)
        requires
            json@.wf(),
            old(self).depth() + height_of(json@) <= usize::MAX,
        ensures
            final(self).is_min() == old(self).is_min(),
            final(self).step() == old(self).step(),
            final(self).depth() == old(self).depth(),
            final(self).out() == old(self).out() + (if old(self).is_min() {
                min_text(json@)
            } else {
                pretty_text(json@, old(self).step(), old(self).depth())
            }),
        decreases *json, 1int,
    {
        match json {
            JsonValue::Null => self.write("null"),
            JsonValue::Boolen(b) => {
                if *b {
                    self.write("true")
                } else {
                    self.write("false")
                }
            },
            JsonValue::String(s) => self.write_string(s.as_str()),
            JsonValue::Number(n) => self.write_number(*n),
            JsonValue::Array(array) => self.write_array(array),
            JsonValue::Object(object) => self.write_object(object),
        }
    }

    /// Appends an array: elements between `[` and `]`, one per line when
    /// indenting.
    #[verifier::rlimit(100)]
    #[verifier::spinoff_prover]
    fn write_array(&mut self, array: &Vec<JsonValue>)
        requires
            arr_wf(arr_model(array@)),
            old(self).depth() + 1 + arr_height(arr_model(array@)) <= usize::MAX,
        ensures
            final(self).is_min() == old(self).is_min(),
            final(self).step() == old(self).step(),
            final(self).depth() == old(self).depth(),
            final(self).out() == old(self).out() + (if old(self).is_min() {
                min_text(Json::Array(arr_model(array@)))
            } else {
                pretty_text(Json::Array(arr_model(array@)), old(self).step(), old(self).depth())
            }),
        decreases *array, 0int,
    {
        let ghost am = arr_model(array@);
        proof {
            crate::value::lemma_arr_model(array@);
        }
        if array.len() == 0 {
            self.write("[]");
            return;
        }
        self.code.push('[');
        let n = array.len();
        let mut first = true;
        let mut idx: usize = 0;
        let ghost d0 = self.depth();
        while idx < n
            invariant
                0 < n == array@.len(),
                idx <= n,
                first == (idx == 0),
                am == arr_model(array@),
                am.len() == n,
                forall|i: int| 0 <= i < n ==> #[trigger] am[i] == json_model_of(array@[i]),
                arr_wf(am),
                d0 == old(self).depth(),
                d0 + 1 + arr_height(am) <= usize::MAX,
                self.is_min() == old(self).is_min(),
                self.step() == old(self).step(),
                self.depth() == (if idx == 0 {
                    d0
                } else {
                    d0 + 1
                }),
                (idx > 0 && self.is_min()) ==> old(self).out() + min_text(Json::Array(am))
                    == self.out() + min_items(am.skip(idx as int)) + seq![']'],
                (idx > 0 && !self.is_min()) ==> old(self).out() + pretty_text(
                    Json::Array(am),
                    self.step(),
                    d0,
                ) == self.out() + pretty_items(am.skip(idx as int), self.step(), (d0 + 1) as nat)
                    + nl_text(self.step(), d0) + seq![']'],
                idx == 0 ==> self.out() == old(self).out().push('['),
            decreases n - idx,
        {
            if first {
                first = false;
                self.new_line(Tab::Right);
            } else {
                self.code.push(',');
                if !self.minify {
                    self.code.push(' ');
                }
                self.new_line(Tab::Stay);
            }
            proof {
                lemma_arr_wf_index(am, idx as int);
                lemma_arr_height_index(am, idx as int);
            }
            self.write_json(&array[idx]);
            proof {
                assert(am.skip(idx as int)[0] == am[idx as int]);
                assert(am.skip(idx as int).drop_first() =~= am.skip(idx as int + 1));
            }
            idx = idx + 1;
        }
        self.new_line(Tab::Left);
        self.code.push(']');
        proof {
            assert(am.skip(n as int).len() == 0);
            assert(final(self).out() =~= old(self).out() + (if old(self).is_min() {
                min_text(Json::Array(am))
            } else {
                pretty_text(Json::Array(am), old(self).step(), old(self).depth())
            }));
        }
    }

    /// Appends an object: its entries in their sorted key order between `{`
    /// and `}`, one per line when indenting.
    #[verifier::rlimit(100)]
    #[verifier::spinoff_prover]
    fn write_object(&mut self, object: &Vec<(String, JsonValue)>)
        requires
            crate::value::obj_wf(ent_model(object@)),
            old(self).depth() + 1 + ent_height(ent_model(object@)) <= usize::MAX,
        ensures
            final(self).is_min() == old(self).is_min(),
            final(self).step() == old(self).step(),
            final(self).depth() == old(self).depth(),
            final(self).out() == old(self).out() + (if old(self).is_min() {
                min_text(Json::Object(ent_model(object@)))
            } else {
                pretty_text(Json::Object(ent_model(object@)), old(self).step(), old(self).depth())
            }),
        decreases *object, 0int,
    {
        let ghost em = ent_model(object@);
        proof {
            crate::value::lemma_ent_model(object@);
        }
        if object.len() == 0 {
            self.write("{}");
            return;
        }
        self.code.push('{');
        let n = object.len();
        let mut first = true;
        let mut idx: usize = 0;
        let ghost d0 = self.depth();
        while idx < n
            invariant
                0 < n == object@.len(),
                idx <= n,
                first == (idx == 0),
                em == ent_model(object@),
                em.len() == n,
                forall|i: int|
                    0 <= i < n ==> #[trigger] em[i] == (object@[i].0@, json_model_of(
                        object@[i].1,
                    )),
                crate::value::obj_wf(em),
                d0 == old(self).depth(),
                d0 + 1 + ent_height(em) <= usize::MAX,
                self.is_min() == old(self).is_min(),
                self.step() == old(self).step(),
                self.depth() == (if idx == 0 {
                    d0
                } else {
                    d0 + 1
                }),
                (idx > 0 && self.is_min()) ==> old(self).out() + min_text(Json::Object(em))
                    == self.out() + min_entries(em.skip(idx as int)) + seq!['}'],
                (idx > 0 && !self.is_min()) ==> old(self).out() + pretty_text(
                    Json::Object(em),
                    self.step(),
                    d0,
                ) == self.out() + pretty_entries(em.skip(idx as int), self.step(), (d0 + 1) as nat)
                    + nl_text(self.step(), d0) + seq!['}'],
                idx == 0 ==> self.out() == old(self).out().push('{'),
            decreases n - idx,
        {
            if first {
                first = false;
                self.new_line(Tab::Right);
            } else {
                self.code.push(',');
                self.new_line(Tab::Stay);
            }
            self.write_string(object[idx].0.as_str());
            self.code.push(':');
            if !self.minify {
                self.code.push(' ');
            }
            proof {
                lemma_obj_wf_index(em, idx as int);
                lemma_ent_height_index(em, idx as int);
            }
            self.write_json(&object[idx].1);
            proof {
                assert(em.skip(idx as int)[0] == em[idx as int]);
                assert(em.skip(idx as int).drop_first() =~= em.skip(idx as int + 1));
            }
            idx = idx + 1;
        }
        self.new_line(Tab::Left);
        self.code.push('}');
        proof {
            assert(em.skip(n as int).len() == 0);
            assert(final(self).out() =~= old(self).out() + (if old(self).is_min() {
                min_text(Json::Object(em))
            } else {
                pretty_text(Json::Object(em), old(self).step(), old(self).depth())
            }));
        }
    }
}

/// A spelling of the model function usable in invariant triggers.
pub open spec fn json_model_of(v: JsonValue) -> Json {
    crate::value::json_model(v)
}

/// The minified text of the value: the canonical compact form.
pub fn stringify(input: JsonValue) -> (r: String)
    requires
        input@.wf(),
        height_of(input@) <= usize::MAX,
    ensures
        r@ == min_text(input@),
{
    let mut generator = Generator::new(true, 4);
    generator.write_json(&input);
    generator.value()
}

impl JsonValue {
    /// The minified text of this value.
    pub fn dump(&self) -> (r: String)
        requires
            self@.wf(),
            height_of(self@) <= usize::MAX,
        ensures
            r@ == min_text(self@),
    {
        let mut generator = Generator::new(true, 0);
        generator.write_json(self);
        generator.value()
    }
}

pub proof fn lemma_arr_height_index(elems: Seq<Json>, i: int)
    requires
        0 <= i < elems.len(),
    ensures
        height_of(elems[i]) <= arr_height(elems),
    decreases i,
{
    if i > 0 {
        lemma_arr_height_index(elems.drop_first(), i - 1);
        assert(elems.drop_first()[i - 1] == elems[i]);
    }
}

pub proof fn lemma_ent_height_index(entries: Seq<(Seq<char>, Json)>, i: int)
    requires
        0 <= i < entries.len(),
    ensures
        height_of(entries[i].1) <= ent_height(entries),
    decreases i,
{
    if i > 0 {
        lemma_ent_height_index(entries.drop_first(), i - 1);
        assert(entries.drop_first()[i - 1] == entries[i]);
    }
}

} // verus!
