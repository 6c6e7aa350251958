use vstd::prelude::*;

use crate::error::ErrModel;
use crate::generator::dec_digits;
use crate::generator::digit_char;
use crate::generator::esc_char;
use crate::generator::fill;
use crate::generator::num_text;
use crate::generator::esc_text;
use crate::generator::min_text;
use crate::parser::parse_at;
use crate::parser::parse_text;
use crate::parser::parse_tok;
use crate::parser::pfuel;
use crate::tokenizer::digit_val;
use crate::tokenizer::is_digit;
use crate::tokenizer::is_num_char;
use crate::tokenizer::lex;
use crate::tokenizer::lex_frac;
use crate::tokenizer::lex_int;
use crate::tokenizer::lex_keyword;
use crate::tokenizer::lex_number;
use crate::tokenizer::mant_step;
use crate::tokenizer::num_finish;
use crate::tokenizer::EXP_SAT;
use crate::tokenizer::MANT_FIT;
use crate::tokenizer::lex_escape;
use crate::tokenizer::lex_string;
use crate::tokenizer::Tok;
use crate::value::chars_lt;
use crate::value::norm_of;
use crate::value::JsonNumber;
use crate::value::pow10;
use crate::value::strip_zeros;
use crate::value::lemma_chars_lt_asym;
use crate::value::lemma_chars_lt_irrefl;
use crate::value::lemma_chars_lt_total;
use crate::value::lemma_chars_lt_trans;
use crate::value::obj_insert;
use crate::value::Json;

verus! {

/// Law: inserting under the same key twice keeps only the later value, as
/// if the earlier insertion had never happened. Together with
/// [`lemma_object_insert_comm`] this makes an object depend only on the
/// pairs it was built from, with the last value per key, not on their order:
/// serialization of objects is deterministic.
pub proof fn lemma_object_insert_overwrite(
    entries: Seq<(Seq<char>, Json)>,
    key: Seq<char>,
    v1: Json,
    v2: Json,
)
    ensures
        obj_insert(obj_insert(entries, key, v1), key, v2) == obj_insert(entries, key, v2),
    decreases entries.len(),
{
    lemma_chars_lt_irrefl(key);
    let once = obj_insert(entries, key, v1);
    if entries.len() == 0 {
        assert(once[0] == (key, v1));
        assert(obj_insert(once, key, v2) =~= obj_insert(entries, key, v2));
    } else if chars_lt(key, entries[0].0) {
        assert(once == seq![(key, v1)] + entries);
        assert(once[0] == (key, v1));
        assert(once.skip(1) =~= entries);
        assert(obj_insert(once, key, v2) =~= obj_insert(entries, key, v2));
    } else if key == entries[0].0 {
        assert(once == seq![(key, v1)] + entries.skip(1));
        assert(once[0] == (key, v1));
        assert(once.skip(1) =~= entries.skip(1));
        assert(obj_insert(once, key, v2) =~= obj_insert(entries, key, v2));
    } else {
        lemma_object_insert_overwrite(entries.skip(1), key, v1, v2);
        assert(once == seq![entries[0]] + obj_insert(entries.skip(1), key, v1));
        assert(once[0] == entries[0]);
        assert(once.skip(1) =~= obj_insert(entries.skip(1), key, v1));
        assert(obj_insert(once, key, v2) =~= obj_insert(entries, key, v2));
    }
}

/// Scanning an escaped text reverses the escaping: from position `i`, where
/// the escaped form of `s` stands followed by a closing quote, the string
/// scanner yields exactly `s` appended to what it had, ending past the
/// quote.
proof fn lemma_lex_esc_text(full: Seq<char>, i: int, s: Seq<char>, acc: Seq<char>)
    requires
        0 <= i,
        i + esc_text(s).len() < full.len(),
        full.subrange(i, i + esc_text(s).len() as int) == esc_text(s),
        full[i + esc_text(s).len() as int] == '"',
    ensures
        lex_string(full, i, acc) == Ok::<(Tok, int), ErrModel>(
            (Tok::String(acc + s), i + esc_text(s).len() + 1),
        ),
    decreases s.len(),
{
    let et = esc_text(s);
    if s.len() == 0 {
        assert(et.len() == 0);
        assert(full[i] == '"');
        assert(acc + s =~= acc);
    } else {
        let c = s[0];
        let e = esc_char(c);
        let rest = esc_text(s.drop_first());
        assert(et == e + rest);
        assert(full[i] == et[0]);
        assert(et[0] == e[0]);
        let el = e.len() as int;
        assert(full.subrange(i + el, i + et.len() as int) =~= rest) by {
            assert forall|k: int| 0 <= k < rest.len() implies full.subrange(
                i + el,
                i + et.len() as int,
            )[k] == rest[k] by {
                assert(full.subrange(i, i + et.len() as int)[el + k] == et[el + k]);
                assert(et[el + k] == rest[k]);
            }
        }
        lemma_lex_esc_text(full, i + el, s.drop_first(), acc.push(c));
        assert(acc.push(c) + s.drop_first() =~= acc + s);
        if e.len() == 1 {
            assert(full[i] == c);
            assert(c != '"' && c != '\\');
            assert(lex_string(full, i, acc) == lex_string(full, i + 1, acc.push(c)));
        } else {
            assert(full[i] == '\\');
            assert(full[i + 1] == et[1]);
            assert(et[1] == e[1]);
            assert(lex_string(full, i, acc) == lex_escape(full, i + 1, acc));
            if c == '"' || c == '\\' {
                assert(e[1] == c);
                assert(lex_escape(full, i + 1, acc) == lex_string(full, i + 2, acc.push(c)));
            } else if c == '\n' {
                assert(lex_escape(full, i + 1, acc) == lex_string(full, i + 2, acc.push('\n')));
            } else if c == '\r' {
                assert(lex_escape(full, i + 1, acc) == lex_string(full, i + 2, acc.push('\r')));
            } else if c == '\t' {
                assert(lex_escape(full, i + 1, acc) == lex_string(full, i + 2, acc.push('\t')));
            } else if c == '\u{c}' {
                assert(lex_escape(full, i + 1, acc) == lex_string(full, i + 2, acc.push('\u{c}')));
            } else {
                assert(c == '\u{8}');
                assert(lex_escape(full, i + 1, acc) == lex_string(full, i + 2, acc.push('\u{8}')));
            }
        }
    }
}

/// Law (round trip, string values): a string value serialized and parsed
/// back is reproduced exactly — every escape the generator writes, the
/// tokenizer decodes to the original character.
pub proof fn lemma_string_round_trip(s: Seq<char>)
    ensures
        parse_text(min_text(Json::String(s))) == Ok::<Json, ErrModel>(Json::String(s)),
{
    let full = min_text(Json::String(s));
    let et = esc_text(s);
    assert(full == seq!['"'] + et + seq!['"']);
    assert(full.len() == et.len() + 2);
    assert(full[0] == '"');
    assert(full[et.len() as int + 1] == '"');
    assert(full.subrange(1, 1 + et.len() as int) =~= et);
    lemma_lex_esc_text(full, 1, s, Seq::empty());
    assert(Seq::empty() + s =~= s);
    assert(lex(full, 0) == Ok::<(Tok, int), ErrModel>((Tok::String(s), full.len() as int)));
    let fuel = pfuel(full, 0);
    assert(parse_at(full, 0, fuel) == parse_tok(full, full.len() as int, Tok::String(s), (fuel
        - 1) as nat));
    assert(parse_at(full, 0, fuel) == Ok::<(Json, int), ErrModel>(
        (Json::String(s), full.len() as int),
    ));
    assert(lex(full, full.len() as int) == Err::<(Tok, int), ErrModel>(
        ErrModel::UnexpectedEndOfJson,
    ));
}

/// Which of two distinct keys comes first; the helper behind the case
/// analysis of the commutation law.
proof fn lemma_keys_ordered(k1: Seq<char>, k2: Seq<char>)
    requires
        k1 != k2,
    ensures
        chars_lt(k1, k2) || chars_lt(k2, k1),
        !(chars_lt(k1, k2) && chars_lt(k2, k1)),
{
    if !chars_lt(k1, k2) && !chars_lt(k2, k1) {
        lemma_chars_lt_total(k1, k2);
    }
    if chars_lt(k1, k2) {
        lemma_chars_lt_asym(k1, k2);
    }
}

/// Law: insertions under two distinct keys commute, so an object built from
/// the same key/value pairs comes out identical whatever the insertion
/// order, and its serialization — a function of the object alone — is the
/// same text.
pub proof fn lemma_object_insert_comm(
    entries: Seq<(Seq<char>, Json)>,
    k1: Seq<char>,
    v1: Json,
    k2: Seq<char>,
    v2: Json,
)
    requires
        k1 != k2,
        Json::Object(entries).wf(),
    ensures
        obj_insert(obj_insert(entries, k1, v1), k2, v2) == obj_insert(
            obj_insert(entries, k2, v2),
            k1,
            v1,
        ),
    decreases entries.len(),
{
    lemma_keys_ordered(k1, k2);
    lemma_chars_lt_irrefl(k1);
    lemma_chars_lt_irrefl(k2);
    if entries.len() > 0 {
        if !chars_lt(k1, entries[0].0) && !chars_lt(entries[0].0, k1) {
            lemma_chars_lt_total(k1, entries[0].0);
        }
        if !chars_lt(k2, entries[0].0) && !chars_lt(entries[0].0, k2) {
            lemma_chars_lt_total(k2, entries[0].0);
        }
    }
    let a1 = obj_insert(entries, k1, v1);
    let a2 = obj_insert(entries, k2, v2);
    if entries.len() == 0 {
        assert(a1 == seq![(k1, v1)]);
        assert(a2 == seq![(k2, v2)]);
        assert(a1[0] == (k1, v1));
        assert(a2[0] == (k2, v2));
        if chars_lt(k2, k1) {
            assert(obj_insert(a1, k2, v2) =~= seq![(k2, v2), (k1, v1)]);
            assert(a2.skip(1) =~= Seq::<(Seq<char>, Json)>::empty());
            assert(obj_insert(a2, k1, v1) =~= seq![(k2, v2)] + obj_insert(
                Seq::empty(),
                k1,
                v1,
            ));
            assert(obj_insert(a2, k1, v1) =~= seq![(k2, v2), (k1, v1)]);
        } else {
            assert(a1.skip(1) =~= Seq::<(Seq<char>, Json)>::empty());
            assert(obj_insert(a1.skip(1), k2, v2) =~= seq![(k2, v2)]);
            assert(obj_insert(a1, k2, v2) =~= seq![(k1, v1), (k2, v2)]);
            assert(obj_insert(a2, k1, v1) =~= seq![(k1, v1), (k2, v2)]);
        }
    } else {
        let h = entries[0].0;
        let tail = entries.skip(1);
        assert(entries.skip(1) =~= entries.drop_first());
        if chars_lt(h, k1) && chars_lt(h, k2) {
            assert(Json::Object(tail).wf()) by {
                assert(crate::value::obj_wf(entries.drop_first()));
            }
            lemma_object_insert_comm(tail, k1, v1, k2, v2);
            lemma_chars_lt_asym(h, k1);
            lemma_chars_lt_asym(h, k2);
            assert(a1 == seq![entries[0]] + obj_insert(tail, k1, v1));
            assert(a2 == seq![entries[0]] + obj_insert(tail, k2, v2));
            assert(a1[0] == entries[0]);
            assert(a2[0] == entries[0]);
            assert(a1.skip(1) =~= obj_insert(tail, k1, v1));
            assert(a2.skip(1) =~= obj_insert(tail, k2, v2));
            assert(obj_insert(a1, k2, v2) =~= seq![entries[0]] + obj_insert(
                obj_insert(tail, k1, v1),
                k2,
                v2,
            ));
            assert(obj_insert(a2, k1, v1) =~= seq![entries[0]] + obj_insert(
                obj_insert(tail, k2, v2),
                k1,
                v1,
            ));
        } else if chars_lt(k1, h) || k1 == h {
            lemma_one_small_key(entries, k1, v1, k2, v2);
        } else {
            assert(chars_lt(k2, h) || k2 == h);
            lemma_one_small_key(entries, k2, v2, k1, v1);
        }
    }
}

/// The commutation law in the case where the first key comes no later than
/// the head key: the head of one insertion is then fixed, and the other
/// insertion lands beside it.
proof fn lemma_one_small_key(
    entries: Seq<(Seq<char>, Json)>,
    ka: Seq<char>,
    va: Json,
    kb: Seq<char>,
    vb: Json,
)
    requires
        ka != kb,
        entries.len() > 0,
        chars_lt(ka, entries[0].0) || ka == entries[0].0,
    ensures
        obj_insert(obj_insert(entries, ka, va), kb, vb) == obj_insert(
            obj_insert(entries, kb, vb),
            ka,
            va,
        ),
{
    lemma_keys_ordered(ka, kb);
    lemma_chars_lt_irrefl(ka);
    lemma_chars_lt_irrefl(kb);
    let h = entries[0].0;
    let tail = entries.skip(1);
    let aa = obj_insert(entries, ka, va);
    let ab = obj_insert(entries, kb, vb);
    if chars_lt(ka, h) {
        assert(aa == seq![(ka, va)] + entries);
        assert(aa[0] == (ka, va));
        assert(aa.skip(1) =~= entries);
        if chars_lt(kb, ka) {
            // kb < ka < h: both land before the head, in the same order.
            lemma_chars_lt_trans(kb, ka, h);
            assert(obj_insert(aa, kb, vb) =~= seq![(kb, vb)] + aa);
            assert(ab == seq![(kb, vb)] + entries);
            assert(ab[0] == (kb, vb));
            assert(ab.skip(1) =~= entries);
            assert(obj_insert(ab, ka, va) =~= seq![(kb, vb)] + aa) by {
                lemma_chars_lt_asym(kb, ka);
                assert(obj_insert(ab, ka, va) == seq![(kb, vb)] + obj_insert(entries, ka, va));
            }
        } else {
            // ka < kb: the second insertion skips the new head.
            assert(obj_insert(aa, kb, vb) =~= seq![(ka, va)] + obj_insert(entries, kb, vb)) by {
                lemma_chars_lt_asym(ka, kb);
            }
            // On the other side ka still comes before whatever heads the
            // result of inserting kb.
            if chars_lt(kb, h) {
                assert(ab == seq![(kb, vb)] + entries);
                assert(ab[0] == (kb, vb));
                assert(obj_insert(ab, ka, va) =~= seq![(ka, va)] + ab);
                assert(obj_insert(aa, kb, vb) =~= seq![(ka, va)] + ab);
            } else if kb == h {
                assert(ab == seq![(kb, vb)] + entries.skip(1));
                assert(ab[0] == (kb, vb));
                assert(obj_insert(ab, ka, va) =~= seq![(ka, va)] + ab);
                assert(obj_insert(aa, kb, vb) =~= seq![(ka, va)] + ab);
            } else {
                assert(ab == seq![entries[0]] + obj_insert(tail, kb, vb));
                assert(ab[0] == entries[0]);
                assert(obj_insert(ab, ka, va) =~= seq![(ka, va)] + ab);
                assert(obj_insert(aa, kb, vb) =~= seq![(ka, va)] + ab);
            }
        }
    } else {
        // ka == h: inserting ka replaces the head.
        assert(aa == seq![(ka, va)] + tail);
        assert(aa[0] == (ka, va));
        assert(aa.skip(1) =~= tail);
        if chars_lt(kb, ka) {
            assert(obj_insert(aa, kb, vb) =~= seq![(kb, vb)] + aa);
            assert(ab == seq![(kb, vb)] + entries);
            assert(ab[0] == (kb, vb));
            assert(ab.skip(1) =~= entries);
            assert(obj_insert(ab, ka, va) =~= seq![(kb, vb)] + obj_insert(entries, ka, va)) by {
                lemma_chars_lt_asym(kb, ka);
            }
            assert(obj_insert(ab, ka, va) =~= seq![(kb, vb)] + aa);
        } else {
            // ka == h < kb: kb lands in the tail either way.
            assert(obj_insert(aa, kb, vb) =~= seq![(ka, va)] + obj_insert(tail, kb, vb)) by {
                lemma_chars_lt_asym(ka, kb);
            }
            assert(ab == seq![entries[0]] + obj_insert(tail, kb, vb));
            assert(ab[0] == entries[0]);
            assert(ab.skip(1) =~= obj_insert(tail, kb, vb));
            assert(obj_insert(ab, ka, va) =~= seq![(ka, va)] + obj_insert(tail, kb, vb));
        }
    }
}


/// The numeric value of a run of decimal digit characters.
pub open spec fn dig_val(ds: Seq<char>) -> nat
    decreases ds.len(),
{
    if ds.len() == 0 {
        0
    } else {
        (dig_val(ds.drop_last()) * 10 + digit_val(ds.last())) as nat
    }
}

/// The digits of `m` are digit characters and read back as `m`.
proof fn lemma_dec_digits_props(m: nat)
    ensures
        dec_digits(m).len() >= 1,
        dig_val(dec_digits(m)) == m,
        forall|k: int| 0 <= k < dec_digits(m).len() ==> is_digit(#[trigger] dec_digits(m)[k]),
    decreases m,
{
    if m < 10 {
        let ds = dec_digits(m);
        assert(ds == seq![digit_char(m)]);
        assert(ds.last() == digit_char(m));
        assert(ds.drop_last() =~= Seq::<char>::empty());
        assert(dig_val(ds.drop_last()) == 0);
        assert(ds[0] == digit_char(m));
    } else {
        lemma_dec_digits_props(m / 10);
        let head = dec_digits(m / 10);
        let ds = dec_digits(m);
        assert(ds == head.push(digit_char(m % 10)));
        assert(ds.last() == digit_char(m % 10));
        assert(ds.drop_last() =~= head);
        assert(dig_val(ds) == (m / 10) * 10 + m % 10);
        assert((m / 10) * 10 + m % 10 == m) by {
            vstd::arithmetic::div_mod::lemma_fundamental_div_mod(m as int, 10);
        }
        assert forall|k: int| 0 <= k < ds.len() implies is_digit(#[trigger] ds[k]) by {
            if k < head.len() {
                assert(ds[k] == head[k]);
            } else {
                assert(ds[k] == digit_char(m % 10));
            }
        }
    }
}

/// The value of a digit run, taken from the front instead.
proof fn lemma_dig_val_front(ds: Seq<char>)
    requires
        ds.len() > 0,
    ensures
        dig_val(ds) == digit_val(ds[0]) * pow10((ds.len() - 1) as nat) + dig_val(ds.drop_first()),
    decreases ds.len(),
{
    broadcast use vstd::arithmetic::mul::group_mul_basics;

    if ds.len() == 1 {
        assert(ds.drop_last() =~= Seq::<char>::empty());
        assert(ds.drop_first() =~= Seq::<char>::empty());
        assert(ds.last() == ds[0]);
        assert(pow10(0) == 1);
    } else {
        let bl = ds.drop_last();
        lemma_dig_val_front(bl);
        assert(bl[0] == ds[0]);
        assert(ds.drop_first().drop_last() =~= bl.drop_first());
        assert(ds.drop_first().last() == ds.last());
        assert(ds.drop_first().len() > 0);
        assert(dig_val(ds.drop_first()) == dig_val(bl.drop_first()) * 10 + digit_val(ds.last()));
        let p = pow10((bl.len() - 1) as nat);
        assert(pow10((ds.len() - 1) as nat) == 10 * p);
        assert(dig_val(ds) == dig_val(bl) * 10 + digit_val(ds.last()));
        assert(dig_val(bl) == digit_val(ds[0]) * p + dig_val(bl.drop_first()));
        assert((digit_val(ds[0]) * p + dig_val(bl.drop_first())) * 10 == digit_val(ds[0]) * (10
            * p) + dig_val(bl.drop_first()) * 10) by (nonlinear_arith);
    }
}

/// Scanning a run of digits that ends the text accumulates exactly their
/// value, digit by digit, none dropped while the total stays readable.
proof fn lemma_scan_int(full: Seq<char>, i: int, ds: Seq<char>, neg: bool, m0: u64, adj: i64, seen: bool)
    requires
        0 <= i,
        i + ds.len() <= full.len(),
        full.subrange(i, i + ds.len() as int) == ds,
        forall|k: int| 0 <= k < ds.len() ==> is_digit(#[trigger] ds[k]),
        m0 * pow10(ds.len()) + dig_val(ds) <= 10 * (MANT_FIT as nat) + 9,
    ensures
        lex_int(full, i, neg, m0, adj, seen) == lex_int(
            full,
            i + ds.len() as int,
            neg,
            (m0 * pow10(ds.len()) + dig_val(ds)) as u64,
            adj,
            seen || ds.len() > 0,
        ),
    decreases ds.len(),
{
    broadcast use vstd::arithmetic::mul::group_mul_basics;

    if ds.len() == 0 {
        assert(pow10(0) == 1);
    } else {
        let c = ds[0];
        assert(full[i] == c) by {
            assert(full.subrange(i, i + ds.len() as int)[0] == full[i]);
        }
        assert(is_digit(c));
        let p1 = pow10((ds.len() - 1) as nat);
        assert(pow10(ds.len()) == 10 * p1);
        lemma_dig_val_front(ds);
        let total = m0 * pow10(ds.len()) + dig_val(ds);
        assert(m0 * (10 * p1) == (m0 * 10) * p1) by (nonlinear_arith);
        assert(digit_val(c) * p1 <= 9 * p1) by (nonlinear_arith)
            requires
                digit_val(c) <= 9,
                p1 >= 0,
        ;
        let m1 = (m0 * 10 + digit_val(c)) as nat;
        assert(m1 * p1 + dig_val(ds.drop_first()) == total) by (nonlinear_arith)
            requires
                m1 == m0 * 10 + digit_val(c),
                total == (m0 * 10) * p1 + (digit_val(c) * p1 + dig_val(ds.drop_first())),
        ;
        assert(dig_val(ds.drop_first()) < p1) by {
            lemma_dig_val_bound(ds.drop_first());
        }
        assert(m1 * p1 <= total) by (nonlinear_arith)
            requires
                total == m1 * p1 + dig_val(ds.drop_first()),
        ;
        assert(m1 <= m1 * p1) by (nonlinear_arith)
            requires
                p1 >= 1,
        ;
        assert(m0 * 10 <= total);
        assert(m0 <= MANT_FIT as nat) by (nonlinear_arith)
            requires
                m0 * 10 <= 10 * (MANT_FIT as nat) + 9,
        ;
        assert(mant_step(m0, c) == m0 * 10 + digit_val(c));
        assert(lex_int(full, i, neg, m0, adj, seen) == lex_int(
            full,
            i + 1,
            neg,
            mant_step(m0, c),
            adj,
            true,
        ));
        assert(full.subrange(i + 1, i + ds.len() as int) =~= ds.drop_first());
        lemma_scan_int(full, i + 1, ds.drop_first(), neg, (m0 * 10 + digit_val(c)) as u64, adj, true);
    }
}

/// A run of `n` digits denotes less than `10^n`.
proof fn lemma_dig_val_bound(ds: Seq<char>)
    requires
        forall|k: int| 0 <= k < ds.len() ==> is_digit(#[trigger] ds[k]),
    ensures
        dig_val(ds) < pow10(ds.len()),
    decreases ds.len(),
{
    if ds.len() > 0 {
        assert forall|k: int| 0 <= k < ds.drop_last().len() implies is_digit(
            #[trigger] ds.drop_last()[k],
        ) by {
            assert(ds.drop_last()[k] == ds[k]);
        }
        lemma_dig_val_bound(ds.drop_last());
        assert(ds.last() == ds[ds.len() - 1]);
        assert(digit_val(ds.last()) <= 9);
        assert(pow10(ds.len()) == 10 * pow10((ds.len() - 1) as nat));
        assert(dig_val(ds.drop_last()) * 10 + 9 < 10 * pow10((ds.len() - 1) as nat))
            by (nonlinear_arith)
            requires
                dig_val(ds.drop_last()) < pow10((ds.len() - 1) as nat),
        ;
    }
}


proof fn lemma_fill_props(c: char, n: nat)
    ensures
        fill(c, n).len() == n,
        forall|k: int| 0 <= k < n ==> #[trigger] fill(c, n)[k] == c,
    decreases n,
{
    if n > 0 {
        lemma_fill_props(c, (n - 1) as nat);
        assert forall|k: int| 0 <= k < n implies #[trigger] fill(c, n)[k] == c by {
            if k < n - 1 {
                assert(fill(c, n)[k] == fill(c, (n - 1) as nat)[k]);
            }
        }
    }
}

/// Stripping the zeros that a power of ten brought gives the factors back.
proof fn lemma_strip_pow(m: nat, k: nat, e: int)
    requires
        m != 0,
        m % 10 != 0,
    ensures
        strip_zeros((m * pow10(k)) as nat, e) == (m, e + k),
    decreases k,
{
    broadcast use vstd::arithmetic::mul::group_mul_basics;

    if k == 0 {
        assert(pow10(0) == 1);
    } else {
        lemma_strip_pow(m, (k - 1) as nat, e + 1);
        let q = (m * pow10((k - 1) as nat)) as nat;
        assert(m * pow10(k) == q * 10) by (nonlinear_arith)
            requires
                pow10(k) == 10 * pow10((k - 1) as nat),
                q == m * pow10((k - 1) as nat),
        ;
        assert(q * 10 % 10 == 0 && q * 10 / 10 == q) by (nonlinear_arith);
        assert(q >= 1) by (nonlinear_arith)
            requires
                m >= 1,
                pow10((k - 1) as nat) >= 1,
                q == m * pow10((k - 1) as nat),
        ;
        assert(pow10((k - 1) as nat) >= 1) by {
            crate::value::lemma_pow10_increases(0, (k - 1) as nat);
        }
        assert(strip_zeros((m * pow10(k)) as nat, e) == strip_zeros(q, e + 1));
    }
}

/// Scanning a run of zeros multiplies the mantissa up while it can take
/// more digits, and counts the rest into the exponent: the value denoted is
/// unchanged.
proof fn lemma_scan_zeros(full: Seq<char>, i: int, z: nat, neg: bool, m1: u64, adj: i64)
    requires
        0 <= i,
        i + z <= full.len(),
        full.subrange(i, i + z as int) == fill('0', z),
        1 <= m1,
        m1 as nat <= 10 * (MANT_FIT as nat) + 9,
        0 <= adj,
        adj + z < EXP_SAT,
    ensures
        exists|k: nat|
            #![auto]
            k <= z && m1 * pow10(k) <= 10 * (MANT_FIT as nat) + 9 && lex_int(
                full,
                i,
                neg,
                m1,
                adj,
                true,
            ) == lex_int(
                full,
                i + z as int,
                neg,
                (m1 * pow10(k)) as u64,
                (adj + (z - k)) as i64,
                true,
            ),
    decreases z,
{
    broadcast use vstd::arithmetic::mul::group_mul_basics;

    lemma_fill_props('0', z);
    if z == 0 {
        assert(pow10(0) == 1);
        assert(m1 * pow10(0) == m1);
        assert(m1 <= 10 * (MANT_FIT as nat) + 9);
        assert((adj + (z - 0)) as i64 == adj);
        assert(0 <= z && m1 * pow10(0) <= 10 * (MANT_FIT as nat) + 9 && lex_int(
            full,
            i,
            neg,
            m1,
            adj,
            true,
        ) == lex_int(full, i + z as int, neg, (m1 * pow10(0)) as u64, (adj + (z - 0)) as i64, true));
    } else {
        assert(full[i] == '0') by {
            assert(full.subrange(i, i + z as int)[0] == full[i]);
            assert(fill('0', z)[0] == '0');
        }
        assert(is_digit('0'));
        assert(digit_val('0') == 0);
        assert(full.subrange(i + 1, i + z as int) =~= fill('0', (z - 1) as nat)) by {
            assert forall|k: int| 0 <= k < z - 1 implies #[trigger] full.subrange(
                i + 1,
                i + z as int,
            )[k] == fill('0', (z - 1) as nat)[k] by {
                assert(full.subrange(i, i + z as int)[k + 1] == full[i + 1 + k]);
                assert(fill('0', z)[k + 1] == '0');
                lemma_fill_props('0', (z - 1) as nat);
            }
        }
        if m1 <= MANT_FIT {
            assert(mant_step(m1, '0') == m1 * 10);
            assert(lex_int(full, i, neg, m1, adj, true) == lex_int(
                full,
                i + 1,
                neg,
                (m1 * 10) as u64,
                adj,
                true,
            ));
            lemma_scan_zeros(full, i + 1, (z - 1) as nat, neg, (m1 * 10) as u64, adj);
            let k1 = choose|k1: nat|
                #![auto]
                k1 <= z - 1 && (m1 * 10) * pow10(k1) <= 10 * (MANT_FIT as nat) + 9 && lex_int(
                    full,
                    i + 1,
                    neg,
                    (m1 * 10) as u64,
                    adj,
                    true,
                ) == lex_int(
                    full,
                    i + 1 + (z - 1) as nat as int,
                    neg,
                    ((m1 * 10) * pow10(k1)) as u64,
                    (adj + ((z - 1) as nat - k1)) as i64,
                    true,
                );
            let k = (k1 + 1) as nat;
            assert(m1 * pow10(k) == (m1 * 10) * pow10(k1)) by (nonlinear_arith)
                requires
                    pow10(k) == 10 * pow10((k - 1) as nat),
                    k1 == k - 1,
            ;
            assert(k <= z && m1 * pow10(k) <= 10 * (MANT_FIT as nat) + 9 && lex_int(
                full,
                i,
                neg,
                m1,
                adj,
                true,
            ) == lex_int(
                full,
                i + z as int,
                neg,
                (m1 * pow10(k)) as u64,
                (adj + (z - k)) as i64,
                true,
            ));
        } else {
            assert(lex_int(full, i, neg, m1, adj, true) == lex_int(
                full,
                i + 1,
                neg,
                m1,
                (adj + 1) as i64,
                true,
            ));
            lemma_scan_zeros(full, i + 1, (z - 1) as nat, neg, m1, (adj + 1) as i64);
            let k = choose|k: nat|
                #![auto]
                k <= z - 1 && m1 * pow10(k) <= 10 * (MANT_FIT as nat) + 9 && lex_int(
                    full,
                    i + 1,
                    neg,
                    m1,
                    (adj + 1) as i64,
                    true,
                ) == lex_int(
                    full,
                    i + 1 + (z - 1) as nat as int,
                    neg,
                    (m1 * pow10(k)) as u64,
                    ((adj + 1) + ((z - 1) as nat - k)) as i64,
                    true,
                );
            assert(k <= z && m1 * pow10(k) <= 10 * (MANT_FIT as nat) + 9 && lex_int(
                full,
                i,
                neg,
                m1,
                adj,
                true,
            ) == lex_int(
                full,
                i + z as int,
                neg,
                (m1 * pow10(k)) as u64,
                (adj + (z - k)) as i64,
                true,
            ));
        }
    }
}

/// Law (round trip, whole numbers): a number with no fractional part, whose
/// significant digits all fit the mantissa, serialized and parsed back is
/// reproduced exactly.
#[verifier::rlimit(100)]
pub proof fn lemma_whole_number_round_trip(n: JsonNumber)
    requires
        n.norm(),
        n.exp >= 0,
        n.mantissa as nat <= 10 * (MANT_FIT as nat) + 9,
    ensures
        parse_text(min_text(Json::Number(n))) == Ok::<Json, ErrModel>(Json::Number(n)),
{
    broadcast use vstd::arithmetic::mul::group_mul_basics;

    let m = n.mantissa as nat;
    let d = dec_digits(m);
    let z = n.exp as nat;
    lemma_dec_digits_props(m);
    lemma_fill_props('0', z);
    let full = min_text(Json::Number(n));
    assert(num_text(n) =~= if n.neg {
        seq!['-'] + d + fill('0', z)
    } else {
        d + fill('0', z)
    }) by {
        if n.neg {
            assert(seq!['-'] + (d + fill('0', z)) =~= seq!['-'] + d + fill('0', z));
        }
    }
    let start: int = if n.neg {
        1
    } else {
        0
    };
    let dend: int = start + d.len() as int;
    assert(full.len() == dend + z);
    assert(full.subrange(start, dend) =~= d);
    assert(full.subrange(dend, full.len() as int) =~= fill('0', z));
    lemma_scan_int(full, start, d, n.neg, 0, 0, false);
    assert((0 * pow10(d.len()) + dig_val(d)) as u64 == n.mantissa);
    assert(lex_int(full, start, n.neg, 0, 0, false) == lex_int(
        full,
        dend,
        n.neg,
        n.mantissa,
        0,
        true,
    ));
    if n.mantissa == 0 {
        assert(z == 0);
        assert(dend == full.len());
        assert(num_finish(n.neg, 0, 0, 0, true, full.len() as int) == Ok::<(Tok, int), ErrModel>(
            (Tok::Number(n), full.len() as int),
        )) by {
            assert(norm_of(n.neg, 0, 0) == n);
        }
        assert(lex_int(full, start, n.neg, 0, 0, false) == Ok::<(Tok, int), ErrModel>(
            (Tok::Number(n), full.len() as int),
        ));
    } else {
        lemma_scan_zeros(full, dend, z, n.neg, n.mantissa, 0);
        let k = choose|k: nat|
            #![auto]
            k <= z && n.mantissa * pow10(k) <= 10 * (MANT_FIT as nat) + 9 && lex_int(
                full,
                dend,
                n.neg,
                n.mantissa,
                0,
                true,
            ) == lex_int(
                full,
                dend + z as int,
                n.neg,
                (n.mantissa * pow10(k)) as u64,
                (0 + (z - k)) as i64,
                true,
            );
        let m2 = (n.mantissa * pow10(k)) as u64;
        let adj2 = (0 + (z - k)) as i64;
        assert(pow10(k) >= 1) by {
            crate::value::lemma_pow10_increases(0, k);
        }
        assert(m2 as nat == m * pow10(k));
        assert(m2 >= 1) by (nonlinear_arith)
            requires
                m >= 1,
                pow10(k) >= 1,
                m2 as nat == m * pow10(k),
        ;
        assert(num_finish(n.neg, m2, adj2, 0, true, full.len() as int) == Ok::<
            (Tok, int),
            ErrModel,
        >((Tok::Number(n), full.len() as int))) by {
            lemma_strip_pow(m, k, adj2 as int);
            assert(strip_zeros(m2 as nat, adj2 as int) == (m, adj2 + k));
            assert(adj2 + k == n.exp);
            assert(norm_of(n.neg, m2 as nat, adj2 as int) == n);
        }
        assert(lex_int(full, start, n.neg, 0, 0, false) == Ok::<(Tok, int), ErrModel>(
            (Tok::Number(n), full.len() as int),
        ));
    }
    if n.neg {
        assert(full[0] == '-');
        assert(lex(full, 0) == lex_number(full, 0));
        assert(lex_number(full, 0) == lex_int(full, 1, true, 0, 0, false));
    } else {
        assert(full[0] == d[0]);
        assert(is_digit(full[0]));
        assert(lex(full, 0) == lex_number(full, 0));
        assert(lex_number(full, 0) == lex_int(full, 0, false, 0, 0, false));
    }
    assert(lex(full, 0) == Ok::<(Tok, int), ErrModel>((Tok::Number(n), full.len() as int)));
    let fuel = pfuel(full, 0);
    assert(parse_at(full, 0, fuel) == parse_tok(full, full.len() as int, Tok::Number(n), (fuel
        - 1) as nat));
    assert(parse_at(full, 0, fuel) == Ok::<(Json, int), ErrModel>(
        (Json::Number(n), full.len() as int),
    ));
    assert(lex(full, full.len() as int) == Err::<(Tok, int), ErrModel>(
        ErrModel::UnexpectedEndOfJson,
    ));
}

/// As [`lemma_scan_int`], for digits after the decimal point: each digit
/// kept also moves the exponent down one.
proof fn lemma_scan_frac(full: Seq<char>, i: int, ds: Seq<char>, neg: bool, m0: u64, adj: i64, seen: bool)
    requires
        0 <= i,
        i + ds.len() <= full.len(),
        full.subrange(i, i + ds.len() as int) == ds,
        forall|k: int| 0 <= k < ds.len() ==> is_digit(#[trigger] ds[k]),
        m0 * pow10(ds.len()) + dig_val(ds) <= 10 * (MANT_FIT as nat) + 9,
        adj <= 0,
        -EXP_SAT < adj - ds.len(),
    ensures
        lex_frac(full, i, neg, m0, adj, seen) == lex_frac(
            full,
            i + ds.len() as int,
            neg,
            (m0 * pow10(ds.len()) + dig_val(ds)) as u64,
            (adj - ds.len()) as i64,
            seen || ds.len() > 0,
        ),
    decreases ds.len(),
{
    broadcast use vstd::arithmetic::mul::group_mul_basics;

    if ds.len() == 0 {
        assert(pow10(0) == 1);
    } else {
        let c = ds[0];
        assert(full[i] == c) by {
            assert(full.subrange(i, i + ds.len() as int)[0] == full[i]);
        }
        assert(is_digit(c));
        let p1 = pow10((ds.len() - 1) as nat);
        assert(pow10(ds.len()) == 10 * p1);
        lemma_dig_val_front(ds);
        let total = m0 * pow10(ds.len()) + dig_val(ds);
        assert(m0 * (10 * p1) == (m0 * 10) * p1) by (nonlinear_arith);
        assert(digit_val(c) * p1 <= 9 * p1) by (nonlinear_arith)
            requires
                digit_val(c) <= 9,
                p1 >= 0,
        ;
        let m1 = (m0 * 10 + digit_val(c)) as nat;
        assert(m1 * p1 + dig_val(ds.drop_first()) == total) by (nonlinear_arith)
            requires
                m1 == m0 * 10 + digit_val(c),
                total == (m0 * 10) * p1 + (digit_val(c) * p1 + dig_val(ds.drop_first())),
        ;
        assert(dig_val(ds.drop_first()) < p1) by {
            lemma_dig_val_bound(ds.drop_first());
        }
        assert(m1 * p1 <= total) by (nonlinear_arith)
            requires
                total == m1 * p1 + dig_val(ds.drop_first()),
        ;
        assert(m1 <= m1 * p1) by (nonlinear_arith)
            requires
                p1 >= 1,
        ;
        assert(m0 * 10 <= total);
        assert(m0 <= MANT_FIT as nat) by (nonlinear_arith)
            requires
                m0 * 10 <= 10 * (MANT_FIT as nat) + 9,
        ;
        assert(mant_step(m0, c) == m0 * 10 + digit_val(c));
        assert(adj > -EXP_SAT);
        assert(lex_frac(full, i, neg, m0, adj, seen) == lex_frac(
            full,
            i + 1,
            neg,
            mant_step(m0, c),
            (adj - 1) as i64,
            true,
        ));
        assert(full.subrange(i + 1, i + ds.len() as int) =~= ds.drop_first());
        lemma_scan_frac(
            full,
            i + 1,
            ds.drop_first(),
            neg,
            (m0 * 10 + digit_val(c)) as u64,
            (adj - 1) as i64,
            true,
        );
    }
}

/// A digit run read in two parts: the front digits weigh a power of ten for
/// each digit behind them.
proof fn lemma_dig_val_split(ds: Seq<char>, p: int)
    requires
        0 <= p <= ds.len(),
    ensures
        dig_val(ds) == dig_val(ds.subrange(0, p)) * pow10((ds.len() - p) as nat) + dig_val(
            ds.subrange(p, ds.len() as int),
        ),
    decreases ds.len() - p,
{
    broadcast use vstd::arithmetic::mul::group_mul_basics;

    if p == ds.len() {
        assert(ds.subrange(0, p) =~= ds);
        assert(ds.subrange(p, ds.len() as int) =~= Seq::<char>::empty());
        assert(pow10(0) == 1);
    } else {
        let bl = ds.drop_last();
        lemma_dig_val_split(bl, p);
        assert(bl.subrange(0, p) =~= ds.subrange(0, p));
        assert(ds.subrange(p, ds.len() as int).drop_last() =~= bl.subrange(p, bl.len() as int));
        assert(ds.subrange(p, ds.len() as int).last() == ds.last());
        assert(ds.subrange(p, ds.len() as int).len() > 0);
        let tailv = dig_val(bl.subrange(p, bl.len() as int));
        let headv = dig_val(ds.subrange(0, p));
        let q = pow10((bl.len() - p) as nat);
        assert(dig_val(ds) == dig_val(bl) * 10 + digit_val(ds.last()));
        assert(dig_val(ds.subrange(p, ds.len() as int)) == tailv * 10 + digit_val(ds.last()));
        assert(pow10((ds.len() - p) as nat) == 10 * q);
        assert((headv * q + tailv) * 10 == headv * (10 * q) + tailv * 10) by (nonlinear_arith);
    }
}

/// Leading zeros do not change what a digit run denotes.
proof fn lemma_dig_val_zeros_prefix(g: nat, ds: Seq<char>)
    ensures
        dig_val(fill('0', g) + ds) == dig_val(ds),
        (fill('0', g) + ds).len() == g + ds.len(),
    decreases g,
{
    lemma_fill_props('0', g);
    if g == 0 {
        assert(fill('0', 0) + ds =~= ds);
    } else {
        lemma_dig_val_zeros_prefix((g - 1) as nat, ds);
        let whole = fill('0', g) + ds;
        lemma_dig_val_front(whole);
        assert(whole[0] == '0');
        assert(digit_val('0') == 0);
        assert(whole.drop_first() =~= fill('0', (g - 1) as nat) + ds) by {
            lemma_fill_props('0', (g - 1) as nat);
        }
        assert(dig_val(whole) == 0 * pow10((whole.len() - 1) as nat) + dig_val(whole.drop_first()));
    }
}

/// Law (round trip, fractional numbers): a number with a fractional part,
/// whose significant digits all fit the mantissa, serialized and parsed
/// back is reproduced exactly.
#[verifier::rlimit(100)]
pub proof fn lemma_fraction_number_round_trip(n: JsonNumber)
    requires
        n.norm(),
        n.exp < 0,
        n.mantissa as nat <= 10 * (MANT_FIT as nat) + 9,
    ensures
        parse_text(min_text(Json::Number(n))) == Ok::<Json, ErrModel>(Json::Number(n)),
{
    broadcast use vstd::arithmetic::mul::group_mul_basics;

    let m = n.mantissa as nat;
    let d = dec_digits(m);
    let l = d.len() as int;
    lemma_dec_digits_props(m);
    let full = min_text(Json::Number(n));
    let start: int = if n.neg {
        1
    } else {
        0
    };
    if l + n.exp > 0 {
        let p = l + n.exp;
        let ds1 = d.subrange(0, p);
        let ds2 = d.subrange(p, l);
        assert(num_text(n) =~= if n.neg {
            seq!['-'] + ds1 + seq!['.'] + ds2
        } else {
            ds1 + seq!['.'] + ds2
        });
        assert(full.subrange(start, start + p) =~= ds1);
        assert(full[start + p] == '.');
        assert(full.subrange(start + p + 1, full.len() as int) =~= ds2);
        lemma_dig_val_split(d, p);
        let v1 = dig_val(ds1);
        assert(v1 * pow10(ds2.len()) + dig_val(ds2) == m);
        assert(pow10(ds2.len()) >= 1) by {
            crate::value::lemma_pow10_increases(0, ds2.len());
        }
        assert(v1 <= m) by (nonlinear_arith)
            requires
                m == v1 * pow10(ds2.len()) + dig_val(ds2),
                pow10(ds2.len()) >= 1,
        ;
        assert forall|k: int| 0 <= k < ds1.len() implies is_digit(#[trigger] ds1[k]) by {
            assert(ds1[k] == d[k]);
        }
        assert forall|k: int| 0 <= k < ds2.len() implies is_digit(#[trigger] ds2[k]) by {
            assert(ds2[k] == d[p + k]);
        }
        lemma_scan_int(full, start, ds1, n.neg, 0, 0, false);
        assert((0 * pow10(ds1.len()) + v1) as u64 == v1);
        assert(p >= 1);
        assert(lex_int(full, start + p, n.neg, v1 as u64, 0, true) == lex_frac(
            full,
            start + p + 1,
            n.neg,
            v1 as u64,
            0,
            true,
        )) by {
            assert(is_num_char('.'));
            assert(!is_digit('.'));
        }
        lemma_scan_frac(full, start + p + 1, ds2, n.neg, v1 as u64, 0, true);
        assert((v1 * pow10(ds2.len()) + dig_val(ds2)) as u64 == n.mantissa);
        assert((0 - ds2.len()) as i64 == n.exp as i64);
        assert(num_finish(n.neg, n.mantissa, n.exp as i64, 0, true, full.len() as int) == Ok::<
            (Tok, int),
            ErrModel,
        >((Tok::Number(n), full.len() as int))) by {
            crate::value::lemma_strip_zeros(m, n.exp as int);
            assert(strip_zeros(m, n.exp as int) == (m, n.exp as int));
            assert(norm_of(n.neg, m, n.exp as int) == n);
        }
        assert(lex_int(full, start, n.neg, 0, 0, false) == Ok::<(Tok, int), ErrModel>(
            (Tok::Number(n), full.len() as int),
        ));
        if n.neg {
            assert(full[0] == '-');
        } else {
            assert(full[0] == ds1[0]);
            assert(is_digit(full[0]));
        }
    } else {
        let g = (0 - (l + n.exp)) as nat;
        assert(num_text(n) =~= if n.neg {
            seq!['-'] + seq!['0', '.'] + fill('0', g) + d
        } else {
            seq!['0', '.'] + fill('0', g) + d
        });
        lemma_fill_props('0', g);
        assert(full[start] == '0');
        assert(full[start + 1] == '.');
        let run = fill('0', g) + d;
        lemma_dig_val_zeros_prefix(g, d);
        assert(full.subrange(start + 2, full.len() as int) =~= run);
        assert forall|k: int| 0 <= k < run.len() implies is_digit(#[trigger] run[k]) by {
            if k < g {
                assert(run[k] == fill('0', g)[k]);
            } else {
                assert(run[k] == d[k - g]);
            }
        }
        assert(full.subrange(start, start + 1) =~= seq!['0']);
        assert(is_digit('0'));
        assert(dig_val(seq!['0']) == 0) by {
            assert(seq!['0'].drop_last() =~= Seq::<char>::empty());
            assert(dig_val(seq!['0'].drop_last()) == 0);
            assert(seq!['0'].last() == '0');
            assert(digit_val('0') == 0);
        }
        assert forall|k: int| 0 <= k < seq!['0'].len() implies is_digit(#[trigger] seq!['0'][k]) by {
            assert(seq!['0'][k] == '0');
        }
        lemma_scan_int(full, start, seq!['0'], n.neg, 0, 0, false);
        assert((0 * pow10(1) + 0) as u64 == 0u64);
        assert(lex_int(full, start + 1, n.neg, 0, 0, true) == lex_frac(
            full,
            start + 2,
            n.neg,
            0,
            0,
            true,
        )) by {
            assert(is_num_char('.'));
            assert(!is_digit('.'));
        }
        lemma_scan_frac(full, start + 2, run, n.neg, 0, 0, true);
        assert((0 * pow10(run.len()) + dig_val(run)) as u64 == n.mantissa);
        assert((0 - run.len()) as i64 == n.exp as i64);
        assert(num_finish(n.neg, n.mantissa, n.exp as i64, 0, true, full.len() as int) == Ok::<
            (Tok, int),
            ErrModel,
        >((Tok::Number(n), full.len() as int))) by {
            crate::value::lemma_strip_zeros(m, n.exp as int);
            assert(m != 0) by {
                if m == 0 {
                    assert(n.exp == 0);
                }
            }
            assert(strip_zeros(m, n.exp as int) == (m, n.exp as int));
            assert(norm_of(n.neg, m, n.exp as int) == n);
        }
        assert(lex_int(full, start, n.neg, 0, 0, false) == Ok::<(Tok, int), ErrModel>(
            (Tok::Number(n), full.len() as int),
        ));
        if n.neg {
            assert(full[0] == '-');
        } else {
            assert(full[0] == '0');
            assert(is_digit(full[0]));
        }
    }
    if n.neg {
        assert(lex(full, 0) == lex_number(full, 0));
        assert(lex_number(full, 0) == lex_int(full, 1, true, 0, 0, false));
    } else {
        assert(lex(full, 0) == lex_number(full, 0));
        assert(lex_number(full, 0) == lex_int(full, 0, false, 0, 0, false));
    }
    assert(lex(full, 0) == Ok::<(Tok, int), ErrModel>((Tok::Number(n), full.len() as int)));
    let fuel = pfuel(full, 0);
    assert(parse_at(full, 0, fuel) == parse_tok(full, full.len() as int, Tok::Number(n), (fuel
        - 1) as nat));
    assert(parse_at(full, 0, fuel) == Ok::<(Json, int), ErrModel>(
        (Json::Number(n), full.len() as int),
    ));
    assert(lex(full, full.len() as int) == Err::<(Tok, int), ErrModel>(
        ErrModel::UnexpectedEndOfJson,
    ));
}

/// Law (round trip, numbers): any number in normal form whose significant
/// digits fit the mantissa is reproduced exactly by serializing and parsing.
pub proof fn lemma_number_round_trip(n: JsonNumber)
    requires
        n.norm(),
        n.mantissa as nat <= 10 * (MANT_FIT as nat) + 9,
    ensures
        parse_text(min_text(Json::Number(n))) == Ok::<Json, ErrModel>(Json::Number(n)),
{
    if n.exp >= 0 {
        lemma_whole_number_round_trip(n);
    } else {
        lemma_fraction_number_round_trip(n);
    }
}


/// A keyword whose remaining characters all stand in the text is accepted.
proof fn lemma_lex_keyword_run(full: Seq<char>, i: int, word: Seq<char>, t: Tok, sofar: Seq<char>)
    requires
        0 <= i,
        i + word.len() == full.len(),
        forall|k: int| 0 <= k < word.len() ==> full[i + k] == word[k],
    ensures
        lex_keyword(full, i, word, t, sofar) == Ok::<(Tok, int), ErrModel>(
            (t, full.len() as int),
        ),
    decreases word.len(),
{
    if word.len() > 0 {
        assert(full[i] == word[0]);
        assert forall|k: int| 0 <= k < word.skip(1).len() implies full[i + 1 + k] == word.skip(
            1,
        )[k] by {
            assert(word.skip(1)[k] == word[k + 1]);
        }
        lemma_lex_keyword_run(full, i + 1, word.skip(1), t, sofar.push(full[i]));
    }
}

/// Law (round trip, null and booleans): the three keyword values are
/// reproduced exactly by serializing and parsing.
pub proof fn lemma_keyword_round_trip(j: Json)
    requires
        j is Null || j is Boolen,
    ensures
        parse_text(min_text(j)) == Ok::<Json, ErrModel>(j),
{
    let full = min_text(j);
    let (t, word, sofar): (Tok, Seq<char>, Seq<char>) = match j {
        Json::Null => (Tok::Null, "ull"@, "n"@),
        Json::Boolen(b) => if b {
            (Tok::Boolen(true), "rue"@, "t"@)
        } else {
            (Tok::Boolen(false), "alse"@, "f"@)
        },
        _ => (Tok::Null, "ull"@, "n"@),
    };
    reveal_strlit("null");
    reveal_strlit("true");
    reveal_strlit("false");
    reveal_strlit("ull");
    reveal_strlit("rue");
    reveal_strlit("alse");
    reveal_strlit("n");
    reveal_strlit("t");
    reveal_strlit("f");
    assert(full.len() == 1 + word.len());
    assert forall|k: int| 0 <= k < word.len() implies full[1 + k] == word[k] by {
    }
    lemma_lex_keyword_run(full, 1, word, t, sofar);
    match j {
        Json::Null => {
            assert(full[0] == 'n');
            assert(lex(full, 0) == lex_keyword(full, 1, "ull"@, Tok::Null, "n"@));
        },
        Json::Boolen(b) => {
            if b {
                assert(full[0] == 't');
                assert(lex(full, 0) == lex_keyword(full, 1, "rue"@, Tok::Boolen(true), "t"@));
            } else {
                assert(full[0] == 'f');
                assert(lex(full, 0) == lex_keyword(full, 1, "alse"@, Tok::Boolen(false), "f"@));
            }
        },
        _ => {
        },
    }
    assert(lex(full, 0) == Ok::<(Tok, int), ErrModel>((t, full.len() as int)));
    let fuel = pfuel(full, 0);
    assert(parse_at(full, 0, fuel) == parse_tok(full, full.len() as int, t, (fuel - 1) as nat));
    assert(parse_at(full, 0, fuel) == Ok::<(Json, int), ErrModel>((j, full.len() as int)));
    assert(lex(full, full.len() as int) == Err::<(Tok, int), ErrModel>(
        ErrModel::UnexpectedEndOfJson,
    ));
}

/// Law (round trip, scalar values): every scalar — null, a boolean, a
/// number in normal form with its digits within the mantissa, or a string —
/// parses back from its own serialization to exactly itself.
pub proof fn lemma_scalar_round_trip(j: Json)
    requires
        j.wf(),
        !(j is Array) && !(j is Object),
        j matches Json::Number(n) ==> n.mantissa as nat <= 10 * (MANT_FIT as nat) + 9,
    ensures
        parse_text(min_text(j)) == Ok::<Json, ErrModel>(j),
{
    match j {
        Json::Null => lemma_keyword_round_trip(j),
        Json::Boolen(_) => lemma_keyword_round_trip(j),
        Json::Number(n) => lemma_number_round_trip(n),
        Json::String(s) => lemma_string_round_trip(s),
        _ => {
        },
    }
}

/// Law (idempotence of minification, scalar values): parsing a scalar's
/// minified text and minifying again reproduces the same text.
pub proof fn lemma_scalar_minify_idempotent(j: Json)
    requires
        j.wf(),
        !(j is Array) && !(j is Object),
        j matches Json::Number(n) ==> n.mantissa as nat <= 10 * (MANT_FIT as nat) + 9,
    ensures
        parse_text(min_text(j)) matches Ok(v) && min_text(v) == min_text(j),
{
    lemma_scalar_round_trip(j);
}

} // verus!