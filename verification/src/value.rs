use vstd::prelude::*;
use vstd::math::abs;

verus! {

broadcast use vstd::std_specs::vec::axiom_vec_index_decreases, vstd::std_specs::vec::axiom_vec_decreases_to_view;

/// A JSON number, stored exactly as a signed decimal:
/// the value is `(-1)^neg * mantissa * 10^exp`.
///
/// The representation is kept in a normal form (see [`JsonNumber::norm`]):
/// the mantissa carries no trailing zero digits (the power of ten does that
/// work instead) and the decimal exponent stays in a bounded range, so that
/// two numbers denote the same value exactly when their fields are equal and
/// rendering a number always produces a text of reasonable size.
#[derive(Debug, Clone, Copy, PartialEq, Eq, Structural)]
pub struct JsonNumber {
    pub neg: bool,
    pub mantissa: u64,
    pub exp: i32,
}

/// Largest magnitude allowed for the decimal exponent of a [`JsonNumber`].
pub const MAX_EXP: i32 = 1000;

impl JsonNumber {
    /// The normal form every number held in a [`JsonValue`] satisfies.
    pub open spec fn norm(self) -> bool {
        &&& (self.mantissa == 0 ==> self.exp == 0)
        &&& (self.mantissa != 0 ==> self.mantissa % 10 != 0)
        &&& -MAX_EXP <= self.exp <= MAX_EXP
    }
}

/// The mathematical model of a JSON value: what a [`JsonValue`] denotes.
///
/// Text is a sequence of characters; an array is a sequence of models; an
/// object is the sequence of its entries, in strictly ascending key order.
pub enum Json {
    Null,
    Boolen(bool),
    String(Seq<char>),
    Number(JsonNumber),
    Array(Seq<Json>),
    Object(Seq<(Seq<char>, Json)>),
}

/// Strict lexicographic order on character sequences, comparing scalar values
/// position by position; a proper prefix comes first.
pub open spec fn chars_lt(a: Seq<char>, b: Seq<char>) -> bool
    decreases a.len(),
{
    if b.len() == 0 {
        false
    } else if a.len() == 0 {
        true
    } else if a[0] == b[0] {
        chars_lt(a.skip(1), b.skip(1))
    } else {
        (a[0] as u32) < (b[0] as u32)
    }
}

impl Json {
    /// Well-formedness of a model: every number is in normal form and every
    /// object holds its entries in strictly ascending key order, so keys are
    /// unique.
    pub open spec fn wf(self) -> bool
        decreases self,
    {
        match self {
            Json::Null => true,
            Json::Boolen(_) => true,
            Json::String(_) => true,
            Json::Number(n) => n.norm(),
            Json::Array(elems) => arr_wf(elems),
            Json::Object(entries) => obj_wf(entries),
        }
    }
}

/// Every element of the array is well formed.
pub open spec fn arr_wf(elems: Seq<Json>) -> bool
    decreases elems,
{
    elems.len() == 0 || (elems[0].wf() && arr_wf(elems.drop_first()))
}

/// Every value is well formed and each key comes strictly before the next,
/// so the entries are sorted and the keys unique.
pub open spec fn obj_wf(entries: Seq<(Seq<char>, Json)>) -> bool
    decreases entries,
{
    if entries.len() == 0 {
        true
    } else {
        &&& entries[0].1.wf()
        &&& (entries.len() > 1 ==> chars_lt(entries[0].0, entries[1].0))
        &&& obj_wf(entries.drop_first())
    }
}

/// A JSON value: the tagged union the parser produces and the generator
/// consumes.
///
/// An `Object` holds its entries sorted by key with no duplicates; the
/// constructors and the parser maintain that invariant, stated by
/// [`Json::wf`] over the value's model.
#[derive(Debug, PartialEq)]
pub enum JsonValue {
    Null,
    Boolen(bool),
    String(String),
    Number(JsonNumber),
    Array(Vec<JsonValue>),
    Object(Vec<(String, JsonValue)>),
}

/// `10^e`.
pub open spec fn pow10(e: nat) -> nat
    decreases e,
{
    if e == 0 {
        1
    } else {
        10 * pow10((e - 1) as nat)
    }
}

/// Dividing out the trailing zero digits of `m`, moving each into the
/// exponent: the result denotes the same decimal value.
pub open spec fn strip_zeros(m: nat, e: int) -> (nat, int)
    decreases m,
{
    if m == 0 || m % 10 != 0 {
        (m, e)
    } else {
        strip_zeros(m / 10, e + 1)
    }
}

/// The normal form of the decimal `(-1)^neg * m * 10^e`.
pub open spec fn norm_of(neg: bool, m: nat, e: int) -> JsonNumber {
    if m == 0 {
        JsonNumber { neg, mantissa: 0, exp: 0 }
    } else {
        let se = strip_zeros(m, e);
        JsonNumber { neg, mantissa: se.0 as u64, exp: se.1 as i32 }
    }
}

pub proof fn lemma_strip_zeros(m: nat, e: int)
    ensures
        strip_zeros(m, e).0 <= m,
        strip_zeros(m, e).1 >= e,
        m != 0 ==> strip_zeros(m, e).0 != 0 && strip_zeros(m, e).0 % 10 != 0,
        m == 0 ==> strip_zeros(m, e) == (m, e),
        strip_zeros(m, e).0 * pow10((strip_zeros(m, e).1 - e) as nat) == m,
    decreases m,
{
    broadcast use vstd::arithmetic::mul::group_mul_basics;

    if m == 0 || m % 10 != 0 {
        assert(strip_zeros(m, e) == (m, e));
        assert(pow10(0) == 1);
    } else {
        lemma_strip_zeros(m / 10, e + 1);
        let s = strip_zeros(m / 10, e + 1);
        let p = pow10((s.1 - e - 1) as nat);
        assert(s.0 * p == m / 10);
        assert(pow10((s.1 - e) as nat) == 10 * p);
        assert(m == 10 * (m / 10)) by {
            vstd::arithmetic::div_mod::lemma_fundamental_div_mod(m as int, 10);
        }
        assert(s.0 * (10 * p) == 10 * (s.0 * p)) by (nonlinear_arith);
        assert(s.0 * pow10((s.1 - e) as nat) == 10 * (s.0 * p));
        assert(strip_zeros(m, e) == s);
        assert(strip_zeros(m, e).0 * pow10((strip_zeros(m, e).1 - e) as nat) == m);
    }
}

/// `10^20` does not fit in 64 bits, so a nonzero `u64` mantissa never carries
/// 20 or more trailing zeros.
pub proof fn lemma_strip_zeros_u64(m: nat, e: int)
    requires
        0 < m <= u64::MAX,
    ensures
        e <= strip_zeros(m, e).1 <= e + 19,
        0 < strip_zeros(m, e).0 <= u64::MAX,
    decreases m,
{
    lemma_strip_zeros(m, e);
    let s = strip_zeros(m, e);
    let k = (s.1 - e) as nat;
    if k > 19 {
        assert(pow10(20) == 100000000000000000000) by {
            reveal_with_fuel(pow10, 21);
        }
        lemma_pow10_increases(20, k);
        assert(s.0 * pow10(k) >= 1 * pow10(k)) by (nonlinear_arith)
            requires
                s.0 >= 1,
        ;
    }
}

pub proof fn lemma_pow10_increases(a: nat, b: nat)
    requires
        a <= b,
    ensures
        pow10(a) <= pow10(b),
    decreases b,
{
    if a < b {
        lemma_pow10_increases(a, (b - 1) as nat);
        assert(pow10(b) == 10 * pow10((b - 1) as nat));
    }
}

impl JsonNumber {
    /// The normal form of the integer `v`: its decimal digits without
    /// trailing zeros, and the matching power of ten.
    pub fn from_i64(v: i64) -> (r: JsonNumber)
        ensures
            r == norm_of(v < 0, abs(v as int), 0),
            r.norm(),
    {
        let neg: bool = v < 0;
        let m0: u64 = if v < 0 {
            ((-(v + 1)) as u64) + 1
        } else {
            v as u64
        };
        proof {
            assert(m0 == abs(v as int));
        }
        let mut m: u64 = m0;
        let mut e: i32 = 0;
        proof {
            lemma_strip_zeros(m0 as nat, 0);
            if m0 != 0 {
                lemma_strip_zeros_u64(m0 as nat, 0);
            }
        }
        if m == 0 {
            return JsonNumber { neg, mantissa: 0, exp: 0 };
        }
        while m % 10 == 0
            invariant
                0 < m <= m0,
                0 <= e <= 19,
                strip_zeros(m0 as nat, 0) == strip_zeros(m as nat, e as int),
                strip_zeros(m as nat, e as int).1 <= 19,
            decreases m,
        {
            m = m / 10;
            e = e + 1;
            proof {
                lemma_strip_zeros(m as nat, e as int);
            }
        }
        JsonNumber { neg, mantissa: m, exp: e }
    }

    /// The normal form of the decimal `(-1)^neg * mantissa * 10^exp`.
    pub fn from_decimal(neg: bool, mantissa: u64, exp: i32) -> (r: JsonNumber)
        requires
            -900 <= exp <= 900,
        ensures
            r == norm_of(neg, mantissa as nat, exp as int),
            r.norm(),
    {
        proof {
            lemma_strip_zeros(mantissa as nat, exp as int);
            if mantissa != 0 {
                lemma_strip_zeros_u64(mantissa as nat, exp as int);
            }
        }
        if mantissa == 0 {
            return JsonNumber { neg, mantissa: 0, exp: 0 };
        }
        let mut m: u64 = mantissa;
        let mut e: i32 = exp;
        while m % 10 == 0
            invariant
                0 < m <= mantissa,
                -900 <= exp <= 900,
                exp <= e <= exp + 19,
                strip_zeros(mantissa as nat, exp as int) == strip_zeros(m as nat, e as int),
                strip_zeros(m as nat, e as int).1 <= exp + 19,
            decreases m,
        {
            m = m / 10;
            e = e + 1;
            proof {
                lemma_strip_zeros(m as nat, e as int);
            }
        }
        JsonNumber { neg, mantissa: m, exp: e }
    }
}

/// Where the key belongs in a sorted entry sequence: replacing the entry that
/// already carries an equal key, or standing just before the first larger one.
pub open spec fn obj_insert(
    entries: Seq<(Seq<char>, Json)>,
    key: Seq<char>,
    value: Json,
) -> Seq<(Seq<char>, Json)>
    decreases entries.len(),
{
    if entries.len() == 0 {
        seq![(key, value)]
    } else if chars_lt(key, entries[0].0) {
        seq![(key, value)] + entries
    } else if key == entries[0].0 {
        seq![(key, value)] + entries.skip(1)
    } else {
        seq![entries[0]] + obj_insert(entries.skip(1), key, value)
    }
}

pub proof fn lemma_chars_lt_irrefl(a: Seq<char>)
    ensures
        !chars_lt(a, a),
    decreases a.len(),
{
    if a.len() > 0 {
        lemma_chars_lt_irrefl(a.skip(1));
    }
}

pub proof fn lemma_chars_lt_asym(a: Seq<char>, b: Seq<char>)
    requires
        chars_lt(a, b),
    ensures
        !chars_lt(b, a),
        a != b,
    decreases a.len(),
{
    if b.len() == 0 {
    } else if a.len() == 0 {
    } else if a[0] == b[0] {
        lemma_chars_lt_asym(a.skip(1), b.skip(1));
        assert(a != b) by {
            assert(a.skip(1) != b.skip(1));
            if a == b {
                assert(a.skip(1) =~= b.skip(1));
            }
        }
    } else {
        if a == b {
            assert(a[0] == b[0]);
        }
    }
}

/// The order is total: two sequences neither of which comes first are equal.
pub proof fn lemma_chars_lt_total(a: Seq<char>, b: Seq<char>)
    requires
        !chars_lt(a, b),
        !chars_lt(b, a),
    ensures
        a == b,
    decreases a.len(),
{
    if b.len() == 0 {
        assert(a.len() == 0);
        assert(a =~= b);
    } else if a.len() == 0 {
    } else if a[0] == b[0] {
        lemma_chars_lt_total(a.skip(1), b.skip(1));
        assert(a =~= seq![a[0]] + a.skip(1));
        assert(b =~= seq![b[0]] + b.skip(1));
    } else {
        assert((a[0] as u32) == (b[0] as u32));
        vstd::utf8::char_u32_cast(a[0], a[0] as u32);
        vstd::utf8::char_u32_cast(b[0], a[0] as u32);
    }
}

pub proof fn lemma_chars_lt_trans(a: Seq<char>, b: Seq<char>, c: Seq<char>)
    requires
        chars_lt(a, b),
        chars_lt(b, c),
    ensures
        chars_lt(a, c),
    decreases a.len() + b.len() + c.len(),
{
    if a.len() == 0 || b.len() == 0 || c.len() == 0 {
    } else if a[0] == b[0] && b[0] == c[0] {
        lemma_chars_lt_trans(a.skip(1), b.skip(1), c.skip(1));
    }
}

/// Three-way comparison of two texts in the key order of objects.
pub fn chars_cmp(a: &str, b: &str) -> (r: i8)
    ensures
        (r == -1) <==> chars_lt(a@, b@),
        (r == 0) <==> a@ == b@,
        (r == 1) <==> chars_lt(b@, a@),
        r == -1 || r == 0 || r == 1,
{
    proof {
        lemma_chars_lt_irrefl(a@);
        assert(a@.skip(0) =~= a@);
        assert(b@.skip(0) =~= b@);
    }
    let alen = a.unicode_len();
    let blen = b.unicode_len();
    let mut i: usize = 0;
    loop
        invariant
            i <= alen,
            i <= blen,
            alen as nat == a@.len(),
            blen as nat == b@.len(),
            chars_lt(a@, b@) == chars_lt(a@.skip(i as int), b@.skip(i as int)),
            chars_lt(b@, a@) == chars_lt(b@.skip(i as int), a@.skip(i as int)),
            (a@ == b@) == (a@.skip(i as int) == b@.skip(i as int)),
        decreases alen - i,
    {
        if i >= alen && i >= blen {
            proof {
                assert(a@.skip(i as int) =~= b@.skip(i as int));
            }
            return 0;
        }
        if i >= alen {
            proof {
                assert(a@.skip(i as int).len() == 0);
                assert(b@.skip(i as int).len() > 0);
                lemma_chars_lt_asym(a@, b@);
            }
            return -1;
        }
        if i >= blen {
            proof {
                assert(b@.skip(i as int).len() == 0);
                assert(a@.skip(i as int).len() > 0);
                lemma_chars_lt_asym(b@, a@);
            }
            return 1;
        }
        let ca = a.get_char(i);
        let cb = b.get_char(i);
        proof {
            assert(a@.skip(i as int)[0] == a@[i as int]);
            assert(b@.skip(i as int)[0] == b@[i as int]);
        }
        if (ca as u32) < (cb as u32) {
            proof {
                assert(ca != cb);
                assert(chars_lt(a@.skip(i as int), b@.skip(i as int)));
                lemma_chars_lt_asym(a@, b@);
                if a@ == b@ {
                    assert(a@[i as int] == b@[i as int]);
                }
            }
            return -1;
        }
        if (ca as u32) > (cb as u32) {
            proof {
                assert(ca != cb);
                assert(chars_lt(b@.skip(i as int), a@.skip(i as int)));
                lemma_chars_lt_asym(b@, a@);
                if a@ == b@ {
                    assert(a@[i as int] == b@[i as int]);
                }
            }
            return 1;
        }
        proof {
            assert(ca == cb) by {
                vstd::utf8::char_u32_cast(ca, ca as u32);
                vstd::utf8::char_u32_cast(cb, ca as u32);
            }
            assert(a@.skip(i as int).skip(1) =~= a@.skip(i as int + 1));
            assert(b@.skip(i as int).skip(1) =~= b@.skip(i as int + 1));
            if a@.skip(i as int) == b@.skip(i as int) {
                assert(a@.skip(i as int).skip(1) == b@.skip(i as int).skip(1));
            }
            assert(a@.skip(i as int) =~= seq![a@[i as int]] + a@.skip(i as int + 1));
            assert(b@.skip(i as int) =~= seq![b@[i as int]] + b@.skip(i as int + 1));
        }
        i = i + 1;
    }
}

/// Puts `key: value` into a sorted entry vector, keeping it sorted:
/// an entry with an equal key is overwritten, any other key keeps its place.
pub fn object_insert(entries: &mut Vec<(String, JsonValue)>, key: String, value: JsonValue)
    ensures
        ent_model(final(entries)@) == obj_insert(ent_model(old(entries)@), key@, value@),
{
    let ghost om = ent_model(old(entries)@);
    let n = entries.len();
    let mut idx: usize = 0;
    proof {
        lemma_ent_model(old(entries)@);
        assert(om.subrange(0, 0) + obj_insert(om.skip(0), key@, value@) =~= obj_insert(
            om,
            key@,
            value@,
        )) by {
            assert(om.skip(0) =~= om);
        }
    }
    while idx < n
        invariant
            idx <= n,
            n == entries.len(),
            entries@ == old(entries)@,
            om == ent_model(old(entries)@),
            obj_insert(om, key@, value@) == om.subrange(0, idx as int) + obj_insert(
                om.skip(idx as int),
                key@,
                value@,
            ),
        decreases n - idx,
    {
        let r = chars_cmp(entries[idx].0.as_str(), key.as_str());
        proof {
            lemma_ent_model(old(entries)@);
            assert(om.skip(idx as int)[0] == om[idx as int]);
            assert(om[idx as int].0 == entries@[idx as int].0@);
        }
        if r == 0 {
            proof {
                lemma_chars_lt_irrefl(key@);
            }
            let pair = (key, value);
            let ghost gp = pair;
            entries.remove(idx);
            let ghost mid = entries@;
            entries.insert(idx, pair);
            proof {
                lemma_ent_model(entries@);
                old(entries)@.remove_ensures(idx as int);
                mid.insert_ensures(idx as int, gp);
                assert(ent_model(entries@) =~= om.subrange(0, idx as int) + (seq![
                    (key@, value@),
                ] + om.skip(idx as int).skip(1)));
            }
            return;
        } else if r == 1 {
            let pair = (key, value);
            let ghost gp = pair;
            let ghost mid = entries@;
            entries.insert(idx, pair);
            proof {
                lemma_ent_model(entries@);
                mid.insert_ensures(idx as int, gp);
                assert(ent_model(entries@) =~= om.subrange(0, idx as int) + (seq![
                    (key@, value@),
                ] + om.skip(idx as int)));
            }
            return;
        } else {
            proof {
                lemma_chars_lt_asym(om[idx as int].0, key@);
                assert(om.subrange(0, idx as int) + (seq![om.skip(idx as int)[0]] + obj_insert(
                    om.skip(idx as int).skip(1),
                    key@,
                    value@,
                )) =~= om.subrange(0, idx as int + 1) + obj_insert(
                    om.skip(idx as int + 1),
                    key@,
                    value@,
                )) by {
                    assert(om.skip(idx as int).skip(1) =~= om.skip(idx as int + 1));
                }
            }
            idx = idx + 1;
        }
    }
    let pair = (key, value);
    let ghost gp = pair;
    entries.push(pair);
    proof {
        lemma_ent_model(entries@);
        assert(entries@ == old(entries)@.push(gp));
        assert(om.skip(n as int).len() == 0);
        assert(ent_model(entries@) =~= om.subrange(0, n as int) + obj_insert(
            om.skip(n as int),
            key@,
            value@,
        ));
    }
}

/// The model of a sequence of array elements.
pub open spec fn arr_model(elems: Seq<JsonValue>) -> Seq<Json>
    decreases elems,
{
    if elems.len() == 0 {
        Seq::empty()
    } else {
        seq![json_model(elems[0])] + arr_model(elems.drop_first())
    }
}

/// The model of a sequence of object entries.
pub open spec fn ent_model(entries: Seq<(String, JsonValue)>) -> Seq<(Seq<char>, Json)>
    decreases entries,
{
    if entries.len() == 0 {
        Seq::empty()
    } else {
        seq![(entries[0].0@, json_model(entries[0].1))] + ent_model(entries.drop_first())
    }
}

/// What a [`JsonValue`] denotes; `v@` is shorthand for `json_model(v)`.
pub open spec fn json_model(v: JsonValue) -> Json
    decreases v,
{
    match v {
        JsonValue::Null => Json::Null,
        JsonValue::Boolen(b) => Json::Boolen(b),
        JsonValue::String(s) => Json::String(s@),
        JsonValue::Number(n) => Json::Number(n),
        JsonValue::Array(elems) => Json::Array(arr_model(elems@)),
        JsonValue::Object(entries) => Json::Object(ent_model(entries@)),
    }
}

impl View for JsonValue {
    type V = Json;

    open spec fn view(&self) -> Json {
        json_model(*self)
    }
}

/// The model of an element sequence, element by element.
pub proof fn lemma_arr_model(elems: Seq<JsonValue>)
    ensures
        arr_model(elems).len() == elems.len(),
        forall|i: int| 0 <= i < elems.len() ==> #[trigger] arr_model(elems)[i] == json_model(elems[i]),
    decreases elems,
{
    if elems.len() > 0 {
        lemma_arr_model(elems.drop_first());
        assert forall|i: int| 0 <= i < elems.len() implies #[trigger] arr_model(elems)[i]
            == json_model(elems[i]) by {
            if i > 0 {
                assert(arr_model(elems)[i] == arr_model(elems.drop_first())[i - 1]);
                assert(elems.drop_first()[i - 1] == elems[i]);
            }
        }
    }
}

/// The model of an entry sequence, entry by entry.
pub proof fn lemma_ent_model(entries: Seq<(String, JsonValue)>)
    ensures
        ent_model(entries).len() == entries.len(),
        forall|i: int|
            0 <= i < entries.len() ==> #[trigger] ent_model(entries)[i] == (entries[i].0@,
            json_model(entries[i].1)),
    decreases entries,
{
    if entries.len() > 0 {
        lemma_ent_model(entries.drop_first());
        assert forall|i: int| 0 <= i < entries.len() implies #[trigger] ent_model(entries)[i]
            == (entries[i].0@, json_model(entries[i].1)) by {
            if i > 0 {
                assert(ent_model(entries)[i] == ent_model(entries.drop_first())[i - 1]);
                assert(entries.drop_first()[i - 1] == entries[i]);
            }
        }
    }
}


/// The first entry of an insertion's result: the new pair, or the old first
/// entry where its key comes before the new one.
pub proof fn lemma_obj_insert_head(entries: Seq<(Seq<char>, Json)>, key: Seq<char>, value: Json)
    ensures
        obj_insert(entries, key, value).len() >= 1,
        obj_insert(entries, key, value)[0] == (key, value) || (entries.len() > 0 && obj_insert(
            entries,
            key,
            value,
        )[0] == entries[0]),
{
}

/// Insertion keeps an object well formed, when the inserted value is.
pub proof fn lemma_obj_insert_wf(entries: Seq<(Seq<char>, Json)>, key: Seq<char>, value: Json)
    requires
        obj_wf(entries),
        value.wf(),
    ensures
        obj_wf(obj_insert(entries, key, value)),
    decreases entries.len(),
{
    let r = obj_insert(entries, key, value);
    if entries.len() == 0 {
        assert(r =~= seq![(key, value)]);
        assert(r[0] == (key, value));
        assert(r.drop_first() =~= Seq::empty());
        assert(obj_wf(r.drop_first()));
        assert(obj_wf(r));
    } else if chars_lt(key, entries[0].0) {
        assert(r.drop_first() =~= entries);
    } else if key == entries[0].0 {
        assert(r.drop_first() =~= entries.drop_first()) by {
            assert(entries.skip(1) =~= entries.drop_first());
        }
        assert(r[0] == (key, value));
        if entries.len() > 1 {
            assert(chars_lt(entries[0].0, entries[1].0));
            assert(r.drop_first()[0] == entries[1]);
        }
    } else {
        if !chars_lt(entries[0].0, key) {
            lemma_chars_lt_total(key, entries[0].0);
        }
        assert(chars_lt(entries[0].0, key));
        assert(entries.skip(1) =~= entries.drop_first());
        lemma_obj_insert_wf(entries.drop_first(), key, value);
        let rr = obj_insert(entries.drop_first(), key, value);
        lemma_obj_insert_head(entries.drop_first(), key, value);
        assert(r =~= seq![entries[0]] + rr);
        assert(r.drop_first() =~= rr);
        assert(r[0] == entries[0]);
        assert(r[1] == rr[0]);
        if rr[0] == (key, value) {
            assert(chars_lt(r[0].0, r[1].0));
        } else {
            assert(entries.drop_first()[0] == entries[1]);
            assert(chars_lt(entries[0].0, entries[1].0));
            assert(chars_lt(r[0].0, r[1].0));
        }
        assert(obj_wf(r));
    }
}

/// Appending a well-formed element keeps an array well formed.
pub proof fn lemma_arr_wf_push(elems: Seq<Json>, v: Json)
    requires
        arr_wf(elems),
        v.wf(),
    ensures
        arr_wf(elems.push(v)),
    decreases elems.len(),
{
    if elems.len() == 0 {
        assert(elems.push(v)[0] == v);
        assert(elems.push(v).drop_first() =~= Seq::empty());
        assert(arr_wf(elems.push(v).drop_first()));
    } else {
        lemma_arr_wf_push(elems.drop_first(), v);
        assert(elems.push(v).drop_first() =~= elems.drop_first().push(v));
        assert(elems.push(v)[0] == elems[0]);
        assert(elems[0].wf());
        assert(arr_wf(elems.push(v).drop_first()));
    }
}

/// Each element of a well-formed array is well formed.
pub proof fn lemma_arr_wf_index(elems: Seq<Json>, i: int)
    requires
        arr_wf(elems),
        0 <= i < elems.len(),
    ensures
        elems[i].wf(),
    decreases i,
{
    if i > 0 {
        lemma_arr_wf_index(elems.drop_first(), i - 1);
        assert(elems.drop_first()[i - 1] == elems[i]);
    }
}

/// Each value of a well-formed object is well formed.
pub proof fn lemma_obj_wf_index(entries: Seq<(Seq<char>, Json)>, i: int)
    requires
        obj_wf(entries),
        0 <= i < entries.len(),
    ensures
        entries[i].1.wf(),
    decreases i,
{
    if i > 0 {
        lemma_obj_wf_index(entries.drop_first(), i - 1);
        assert(entries.drop_first()[i - 1] == entries[i]);
    }
}

} // verus!
