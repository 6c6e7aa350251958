use vstd::prelude::*;

use crate::error::ErrModel;
use crate::error::JsonError;
use crate::tokenizer::lemma_lex_bounds;
use crate::tokenizer::lex;
use crate::tokenizer::Tok;
use crate::tokenizer::Token;
use crate::tokenizer::Tokenizer;
use crate::value::arr_model;
use crate::value::arr_wf;
use crate::value::ent_model;
use crate::value::lemma_arr_model;
use crate::value::lemma_arr_wf_push;
use crate::value::lemma_ent_model;
use crate::value::lemma_obj_insert_wf;
use crate::value::obj_insert;
use crate::value::obj_wf;
use crate::value::object_insert;
use crate::value::Json;
use crate::value::JsonValue;
use crate::JsonResult;

verus! {

broadcast use crate::tokenizer::lemma_lex_bounds;

/// Fuel that provably outlasts any descent through the text from `i`: the
/// parser consumes at least one character for every few recursive steps.
pub open spec fn pfuel(s: Seq<char>, i: int) -> nat {
    if 0 <= i <= s.len() {
        (8 * (s.len() - i) + 8) as nat
    } else {
        8
    }
}

/// One JSON value read from position `i`: the next token decides, and
/// brackets recurse. Yields the value's model and the position just past it.
/// `fuel` only forces termination; every run uses more than it can consume.
pub open spec fn parse_at(s: Seq<char>, i: int, fuel: nat) -> Result<(Json, int), ErrModel>
    decreases fuel,
{
    if fuel == 0 {
        Err(ErrModel::UnexpectedEndOfJson)
    } else {
        match lex(s, i) {
            Err(e) => Err(e),
            Ok((t, j)) => parse_tok(s, j, t, (fuel - 1) as nat),
        }
    }
}

/// One JSON value whose first token `t` was already read, ending at `i`.
pub open spec fn parse_tok(s: Seq<char>, i: int, t: Tok, fuel: nat) -> Result<
    (Json, int),
    ErrModel,
>
    decreases fuel,
{
    if fuel == 0 {
        Err(ErrModel::UnexpectedEndOfJson)
    } else {
        match t {
            Tok::Null => Ok((Json::Null, i)),
            Tok::Boolen(b) => Ok((Json::Boolen(b), i)),
            Tok::Number(n) => Ok((Json::Number(n), i)),
            Tok::String(text) => Ok((Json::String(text), i)),
            Tok::BraceOn => parse_obj_first(s, i, (fuel - 1) as nat),
            Tok::BracketOn => parse_arr_first(s, i, (fuel - 1) as nat),
            _ => Err(ErrModel::UnexpectedToken(t.describe())),
        }
    }
}

/// An object body, the `{` already consumed: either `}` at once, or a first
/// `"key": value` pair and then the remaining pairs.
pub open spec fn parse_obj_first(s: Seq<char>, i: int, fuel: nat) -> Result<
    (Json, int),
    ErrModel,
>
    decreases fuel,
{
    if fuel == 0 {
        Err(ErrModel::UnexpectedEndOfJson)
    } else {
        match lex(s, i) {
            Err(e) => Err(e),
            Ok((t, j)) => match t {
                Tok::BraceOff => Ok((Json::Object(Seq::empty()), j)),
                Tok::String(key) => match lex(s, j) {
                    Err(e) => Err(e),
                    Ok((t2, j2)) => if t2 is Colon {
                        match parse_at(s, j2, (fuel - 1) as nat) {
                            Err(e) => Err(e),
                            Ok((v, j3)) => parse_obj_rest(
                                s,
                                j3,
                                obj_insert(Seq::empty(), key, v),
                                (fuel - 1) as nat,
                            ),
                        }
                    } else {
                        Err(ErrModel::UnexpectedToken(t2.describe()))
                    },
                },
                _ => Err(ErrModel::UnexpectedToken(t.describe())),
            },
        }
    }
}

/// The remaining pairs of an object, `entries` those read so far: `,` brings
/// one more pair, whose key may overwrite an earlier one, and `}` ends the
/// object.
pub open spec fn parse_obj_rest(
    s: Seq<char>,
    i: int,
    entries: Seq<(Seq<char>, Json)>,
    fuel: nat,
) -> Result<(Json, int), ErrModel>
    decreases fuel,
{
    if fuel == 0 {
        Err(ErrModel::UnexpectedEndOfJson)
    } else {
        match lex(s, i) {
            Err(e) => Err(e),
            Ok((t, j)) => match t {
                Tok::BraceOff => Ok((Json::Object(entries), j)),
                Tok::Comma => match lex(s, j) {
                    Err(e) => Err(e),
                    Ok((t2, j2)) => match t2 {
                        Tok::String(key) => match lex(s, j2) {
                            Err(e) => Err(e),
                            Ok((t3, j3)) => if t3 is Colon {
                                match parse_at(s, j3, (fuel - 1) as nat) {
                                    Err(e) => Err(e),
                                    Ok((v, j4)) => parse_obj_rest(
                                        s,
                                        j4,
                                        obj_insert(entries, key, v),
                                        (fuel - 1) as nat,
                                    ),
                                }
                            } else {
                                Err(ErrModel::UnexpectedToken(t3.describe()))
                            },
                        },
                        _ => Err(ErrModel::UnexpectedToken(t2.describe())),
                    },
                },
                _ => Err(ErrModel::UnexpectedToken(t.describe())),
            },
        }
    }
}

/// An array body, the `[` already consumed: either `]` at once, or a first
/// element and then the remaining elements.
pub open spec fn parse_arr_first(s: Seq<char>, i: int, fuel: nat) -> Result<
    (Json, int),
    ErrModel,
>
    decreases fuel,
{
    if fuel == 0 {
        Err(ErrModel::UnexpectedEndOfJson)
    } else {
        match lex(s, i) {
            Err(e) => Err(e),
            Ok((t, j)) => match t {
                Tok::BracketOff => Ok((Json::Array(Seq::empty()), j)),
                _ => match parse_tok(s, j, t, (fuel - 1) as nat) {
                    Err(e) => Err(e),
                    Ok((v, j2)) => parse_arr_rest(s, j2, seq![v], (fuel - 1) as nat),
                },
            },
        }
    }
}

/// The remaining elements of an array, `elems` those read so far.
pub open spec fn parse_arr_rest(s: Seq<char>, i: int, elems: Seq<Json>, fuel: nat) -> Result<
    (Json, int),
    ErrModel,
>
    decreases fuel,
{
    if fuel == 0 {
        Err(ErrModel::UnexpectedEndOfJson)
    } else {
        match lex(s, i) {
            Err(e) => Err(e),
            Ok((t, j)) => match t {
                Tok::BracketOff => Ok((Json::Array(elems), j)),
                Tok::Comma => match parse_at(s, j, (fuel - 1) as nat) {
                    Err(e) => Err(e),
                    Ok((v, j2)) => parse_arr_rest(s, j2, elems.push(v), (fuel - 1) as nat),
                },
                _ => Err(ErrModel::UnexpectedToken(t.describe())),
            },
        }
    }
}

/// What `parse` returns on the text `s`: one value read from the start, with
/// nothing but whitespace allowed after it.
pub open spec fn parse_text(s: Seq<char>) -> Result<Json, ErrModel> {
    match parse_at(s, 0, pfuel(s, 0)) {
        Err(e) => Err(e),
        Ok((v, j)) => match lex(s, j) {
            Err(ErrModel::UnexpectedEndOfJson) => Ok(v),
            Ok((t, _)) => Err(ErrModel::UnexpectedToken(t.describe())),
            Err(e) => Err(e),
        },
    }
}

/// A parsed value is well formed and ends within the text, past where it
/// began.
pub proof fn lemma_parse_at_props(s: Seq<char>, i: int, fuel: nat)
    ensures
        parse_at(s, i, fuel) matches Ok(p) ==> i < p.1 <= s.len() && p.0.wf(),
    decreases fuel, 5int,
{
    if fuel > 0 {
        if let Ok((t, j)) = lex(s, i) {
            lemma_lex_bounds(s, i);
            lemma_parse_tok_props(s, j, t, (fuel - 1) as nat);
        }
    }
}

pub proof fn lemma_parse_tok_props(s: Seq<char>, i: int, t: Tok, fuel: nat)
    requires
        0 <= i <= s.len(),
        t matches Tok::Number(n) ==> n.norm(),
    ensures
        parse_tok(s, i, t, fuel) matches Ok(p) ==> i <= p.1 <= s.len() && p.0.wf(),
    decreases fuel, 4int,
{
    if fuel > 0 {
        match t {
            Tok::BraceOn => {
                lemma_parse_obj_first_props(s, i, (fuel - 1) as nat);
            },
            Tok::BracketOn => {
                lemma_parse_arr_first_props(s, i, (fuel - 1) as nat);
            },
            _ => {
            },
        }
    }
}

pub proof fn lemma_parse_obj_first_props(s: Seq<char>, i: int, fuel: nat)
    ensures
        parse_obj_first(s, i, fuel) matches Ok(p) ==> i < p.1 <= s.len() && p.0.wf(),
    decreases fuel, 3int,
{
    if fuel > 0 {
        if let Ok((t, j)) = lex(s, i) {
            lemma_lex_bounds(s, i);
            if let Tok::String(key) = t {
                if let Ok((t2, j2)) = lex(s, j) {
                    lemma_lex_bounds(s, j);
                    if t2 is Colon {
                        lemma_parse_at_props(s, j2, (fuel - 1) as nat);
                        if let Ok((v, j3)) = parse_at(s, j2, (fuel - 1) as nat) {
                            lemma_obj_insert_wf(Seq::empty(), key, v);
                            lemma_parse_obj_rest_props(
                                s,
                                j3,
                                obj_insert(Seq::empty(), key, v),
                                (fuel - 1) as nat,
                            );
                        }
                    }
                }
            }
        }
    }
}

pub proof fn lemma_parse_obj_rest_props(
    s: Seq<char>,
    i: int,
    entries: Seq<(Seq<char>, Json)>,
    fuel: nat,
)
    requires
        obj_wf(entries),
    ensures
        parse_obj_rest(s, i, entries, fuel) matches Ok(p) ==> i < p.1 <= s.len() && p.0.wf(),
    decreases fuel, 2int,
{
    if fuel > 0 {
        if let Ok((t, j)) = lex(s, i) {
            lemma_lex_bounds(s, i);
            if t is Comma {
                if let Ok((t2, j2)) = lex(s, j) {
                    lemma_lex_bounds(s, j);
                    if let Tok::String(key) = t2 {
                        if let Ok((t3, j3)) = lex(s, j2) {
                            lemma_lex_bounds(s, j2);
                            if t3 is Colon {
                                lemma_parse_at_props(s, j3, (fuel - 1) as nat);
                                if let Ok((v, j4)) = parse_at(s, j3, (fuel - 1) as nat) {
                                    lemma_obj_insert_wf(entries, key, v);
                                    lemma_parse_obj_rest_props(
                                        s,
                                        j4,
                                        obj_insert(entries, key, v),
                                        (fuel - 1) as nat,
                                    );
                                }
                            }
                        }
                    }
                }
            }
        }
    }
}

pub proof fn lemma_parse_arr_first_props(s: Seq<char>, i: int, fuel: nat)
    ensures
        parse_arr_first(s, i, fuel) matches Ok(p) ==> i < p.1 <= s.len() && p.0.wf(),
    decreases fuel, 1int,
{
    if fuel > 0 {
        if let Ok((t, j)) = lex(s, i) {
            lemma_lex_bounds(s, i);
            if !(t is BracketOff) {
                lemma_parse_tok_props(s, j, t, (fuel - 1) as nat);
                if let Ok((v, j2)) = parse_tok(s, j, t, (fuel - 1) as nat) {
                    assert(arr_wf(seq![v])) by {
                        assert(seq![v].drop_first() =~= Seq::empty());
                        assert(arr_wf(seq![v].drop_first()));
                        assert(seq![v][0] == v);
                    }
                    lemma_parse_arr_rest_props(s, j2, seq![v], (fuel - 1) as nat);
                }
            }
        }
    }
}

pub proof fn lemma_parse_arr_rest_props(s: Seq<char>, i: int, elems: Seq<Json>, fuel: nat)
    requires
        arr_wf(elems),
    ensures
        parse_arr_rest(s, i, elems, fuel) matches Ok(p) ==> i < p.1 <= s.len() && p.0.wf(),
    decreases fuel, 0int,
{
    if fuel > 0 {
        if let Ok((t, j)) = lex(s, i) {
            lemma_lex_bounds(s, i);
            if t is Comma {
                lemma_parse_at_props(s, j, (fuel - 1) as nat);
                if let Ok((v, j2)) = parse_at(s, j, (fuel - 1) as nat) {
                    lemma_arr_wf_push(elems, v);
                    lemma_parse_arr_rest_props(s, j2, elems.push(v), (fuel - 1) as nat);
                }
            }
        }
    }
}

/// The recursive-descent reader of one JSON text: a [`Tokenizer`] and the
/// grammar around it.
pub struct Parser<'a> {
    tokenizer: Tokenizer<'a>,
}

impl<'a> Parser<'a> {
    /// The characters being parsed.
    pub closed spec fn text(self) -> Seq<char> {
        self.tokenizer.text()
    }

    /// How many characters were consumed so far.
    pub closed spec fn cursor(self) -> int {
        self.tokenizer.cursor()
    }

    pub closed spec fn wf(self) -> bool {
        self.tokenizer.wf()
    }

    pub fn new(source: &'a str) -> (r: Parser<'a>)
        ensures
            r.wf(),
            r.text() == source@,
            r.cursor() == 0,
    {
        Parser { tokenizer: Tokenizer::new(source) }
    }

    /// The next token of the text.
    pub fn consume(&mut self) -> (r: JsonResult<Token>)
        requires
            old(self).wf(),
        ensures
            final(self).wf(),
            final(self).text() == old(self).text(),
            match lex(old(self).text(), old(self).cursor()) {
                Ok((t, j)) => r matches Ok(tok) && tok@ == t && final(self).cursor() == j,
                Err(e) => r matches Err(err) && err@ == e,
            },
    {
        self.tokenizer.next()
    }

    /// One JSON value read at the cursor.
    pub fn value(&mut self) -> (r: JsonResult<JsonValue>)
        requires
            old(self).wf(),
        ensures
            final(self).wf(),
            final(self).text() == old(self).text(),
            match parse_at(
                old(self).text(),
                old(self).cursor(),
                pfuel(old(self).text(), old(self).cursor()),
            ) {
                Ok((m, j)) => r matches Ok(v) && v@ == m && final(self).cursor() == j,
                Err(e) => r matches Err(err) && err@ == e,
            },
    {
        proof {
            self.tokenizer.lemma_wf_bounds();
        }
        let ghost fuel = pfuel(self.text(), self.cursor());
        self.value_fueled(Ghost(fuel))
    }

    /// As [`Parser::value`], against the given fuel.
    fn value_fueled(&mut self, Ghost(fuel): Ghost<nat>) -> (r: JsonResult<JsonValue>)
        requires
            old(self).wf(),
            fuel >= 8 * (old(self).text().len() - old(self).cursor()) + 8,
            old(self).cursor() <= old(self).text().len(),
        ensures
            final(self).wf(),
            final(self).text() == old(self).text(),
            match parse_at(old(self).text(), old(self).cursor(), fuel) {
                Ok((m, j)) => r matches Ok(v) && v@ == m && final(self).cursor() == j,
                Err(e) => r matches Err(err) && err@ == e,
            },
        decreases fuel,
    {
        let token = match self.consume() {
            Ok(t) => t,
            Err(e) => {
                return Err(e);
            },
        };
        self.parse_value(token, Ghost((fuel - 1) as nat))
    }

    /// One JSON value whose first token was already consumed.
    fn parse_value(&mut self, token: Token, Ghost(fuel): Ghost<nat>) -> (r: JsonResult<JsonValue>)
        requires
            old(self).wf(),
            fuel >= 8 * (old(self).text().len() - old(self).cursor()) + 6,
            old(self).cursor() <= old(self).text().len(),
        ensures
            final(self).wf(),
            final(self).text() == old(self).text(),
            match parse_tok(old(self).text(), old(self).cursor(), token@, fuel) {
                Ok((m, j)) => r matches Ok(v) && v@ == m && final(self).cursor() == j,
                Err(e) => r matches Err(err) && err@ == e,
            },
        decreases fuel,
    {
        match token {
            Token::Null => Ok(JsonValue::Null),
            Token::Boolen(b) => Ok(JsonValue::Boolen(b)),
            Token::Number(n) => Ok(JsonValue::Number(n)),
            Token::String(text) => Ok(JsonValue::String(text)),
            Token::BraceOn => self.parse_object(Ghost((fuel - 1) as nat)),
            Token::BracketOn => self.parse_array(Ghost((fuel - 1) as nat)),
            _ => Err(JsonError::unexpected_token(token)),
        }
    }

    /// An object body, the `{` already consumed. Entries arrive in text
    /// order but are kept sorted by key; a repeated key overwrites.
    fn parse_object(&mut self, Ghost(fuel): Ghost<nat>) -> (r: JsonResult<JsonValue>)
        requires
            old(self).wf(),
            fuel >= 8 * (old(self).text().len() - old(self).cursor()) + 4,
            old(self).cursor() <= old(self).text().len(),
        ensures
            final(self).wf(),
            final(self).text() == old(self).text(),
            match parse_obj_first(old(self).text(), old(self).cursor(), fuel) {
                Ok((m, j)) => r matches Ok(v) && v@ == m && final(self).cursor() == j,
                Err(e) => r matches Err(err) && err@ == e,
            },
        decreases fuel,
    {
        let ghost s = self.text();
        let ghost c0 = self.cursor();
        let mut entries: Vec<(String, JsonValue)> = Vec::new();
        let first = match self.consume() {
            Ok(t) => t,
            Err(e) => {
                return Err(e);
            },
        };
        match first {
            Token::BraceOff => {
                proof {
                    lemma_ent_model(entries@);
                    assert(ent_model(entries@) =~= Seq::<(Seq<char>, Json)>::empty());
                }
                return Ok(JsonValue::Object(entries));
            },
            Token::String(key) => {
                match self.consume() {
                    Ok(Token::Colon) => (),
                    Ok(t) => {
                        return Err(JsonError::unexpected_token(t));
                    },
                    Err(e) => {
                        return Err(e);
                    },
                }
                proof {
                    lemma_lex_bounds(s, c0);
                }
                let ghost cv = self.cursor();
                let v = match self.value_fueled(Ghost((fuel - 1) as nat)) {
                    Ok(v) => v,
                    Err(e) => {
                        return Err(e);
                    },
                };
                proof {
                    lemma_parse_at_props(s, cv, (fuel - 1) as nat);
                    lemma_ent_model(entries@);
                    assert(ent_model(entries@) =~= Seq::<(Seq<char>, Json)>::empty());
                }
                object_insert(&mut entries, key, v);
                let ghost em0 = ent_model(entries@);
                self.parse_object_rest(entries, Ghost(em0), Ghost((fuel - 1) as nat))
            },
            t => Err(JsonError::unexpected_token(t)),
        }
    }

    /// The remaining `, "key": value` pairs of an object, up to its `}`;
    /// `em0` is the model of the entries read so far.
    fn parse_object_rest(
        &mut self,
        entries: Vec<(String, JsonValue)>,
        Ghost(em0): Ghost<Seq<(Seq<char>, Json)>>,
        Ghost(fuel): Ghost<nat>,
    ) -> (r: JsonResult<JsonValue>)
        requires
            old(self).wf(),
            em0 == ent_model(entries@),
            fuel >= 8 * (old(self).text().len() - old(self).cursor()) + 2,
            old(self).cursor() <= old(self).text().len(),
        ensures
            final(self).wf(),
            final(self).text() == old(self).text(),
            match parse_obj_rest(old(self).text(), old(self).cursor(), em0, fuel) {
                Ok((m, j)) => r matches Ok(v) && v@ == m && final(self).cursor() == j,
                Err(e) => r matches Err(err) && err@ == e,
            },
        decreases fuel,
    {
        let mut entries = entries;
        let ghost mut gf = fuel;
        loop
            invariant
                self.wf(),
                self.text() == old(self).text(),
                self.cursor() <= self.text().len(),
                2 <= gf <= fuel,
                gf >= 8 * (self.text().len() - self.cursor()) + 2,
                parse_obj_rest(old(self).text(), old(self).cursor(), em0, fuel) == parse_obj_rest(
                    self.text(),
                    self.cursor(),
                    ent_model(entries@),
                    gf,
                ),
            decreases self.text().len() - self.cursor(),
        {
            let ghost s = self.text();
            let ghost ci = self.cursor();
            let t = match self.consume() {
                Ok(t) => t,
                Err(e) => {
                    return Err(e);
                },
            };
            match t {
                Token::BraceOff => {
                    return Ok(JsonValue::Object(entries));
                },
                Token::Comma => {
                    let key = match self.consume() {
                        Ok(Token::String(key)) => key,
                        Ok(t2) => {
                            return Err(JsonError::unexpected_token(t2));
                        },
                        Err(e) => {
                            return Err(e);
                        },
                    };
                    match self.consume() {
                        Ok(Token::Colon) => (),
                        Ok(t3) => {
                            return Err(JsonError::unexpected_token(t3));
                        },
                        Err(e) => {
                            return Err(e);
                        },
                    }
                    let ghost cv = self.cursor();
                    let v = match self.value_fueled(Ghost((gf - 1) as nat)) {
                        Ok(v) => v,
                        Err(e) => {
                            return Err(e);
                        },
                    };
                    proof {
                        lemma_parse_at_props(s, cv, (gf - 1) as nat);
                    }
                    object_insert(&mut entries, key, v);
                    proof {
                        gf = (gf - 1) as nat;
                    }
                },
                t => {
                    return Err(JsonError::unexpected_token(t));
                },
            }
        }
    }

    /// An array body, the `[` already consumed.
    fn parse_array(&mut self, Ghost(fuel): Ghost<nat>) -> (r: JsonResult<JsonValue>)
        requires
            old(self).wf(),
            fuel >= 8 * (old(self).text().len() - old(self).cursor()) + 4,
            old(self).cursor() <= old(self).text().len(),
        ensures
            final(self).wf(),
            final(self).text() == old(self).text(),
            match parse_arr_first(old(self).text(), old(self).cursor(), fuel) {
                Ok((m, j)) => r matches Ok(v) && v@ == m && final(self).cursor() == j,
                Err(e) => r matches Err(err) && err@ == e,
            },
        decreases fuel,
    {
        let ghost s = self.text();
        let ghost c0 = self.cursor();
        let mut elems: Vec<JsonValue> = Vec::new();
        let first = match self.consume() {
            Ok(t) => t,
            Err(e) => {
                return Err(e);
            },
        };
        match first {
            Token::BracketOff => {
                proof {
                    lemma_arr_model(elems@);
                    assert(arr_model(elems@) =~= Seq::<Json>::empty());
                }
                return Ok(JsonValue::Array(elems));
            },
            t => {
                proof {
                    lemma_lex_bounds(s, c0);
                }
                let ghost cv = self.cursor();
                let ghost tm = t@;
                let v = match self.parse_value(t, Ghost((fuel - 1) as nat)) {
                    Ok(v) => v,
                    Err(e) => {
                        return Err(e);
                    },
                };
                proof {
                    lemma_parse_tok_props(s, cv, tm, (fuel - 1) as nat);
                }
                elems.push(v);
                proof {
                    lemma_arr_model(elems@);
                    assert(arr_model(elems@) =~= seq![v@]);
                }
                let ghost am0 = arr_model(elems@);
                self.parse_array_rest(elems, Ghost(am0), Ghost((fuel - 1) as nat))
            },
        }
    }

    /// The remaining `, value` elements of an array, up to its `]`; `am0`
    /// is the model of the elements read so far.
    fn parse_array_rest(
        &mut self,
        elems: Vec<JsonValue>,
        Ghost(am0): Ghost<Seq<Json>>,
        Ghost(fuel): Ghost<nat>,
    ) -> (r: JsonResult<JsonValue>)
        requires
            old(self).wf(),
            am0 == arr_model(elems@),
            fuel >= 8 * (old(self).text().len() - old(self).cursor()) + 2,
            old(self).cursor() <= old(self).text().len(),
        ensures
            final(self).wf(),
            final(self).text() == old(self).text(),
            match parse_arr_rest(old(self).text(), old(self).cursor(), am0, fuel) {
                Ok((m, j)) => r matches Ok(v) && v@ == m && final(self).cursor() == j,
                Err(e) => r matches Err(err) && err@ == e,
            },
        decreases fuel,
    {
        let mut elems = elems;
        let ghost mut gf = fuel;
        loop
            invariant
                self.wf(),
                self.text() == old(self).text(),
                self.cursor() <= self.text().len(),
                2 <= gf <= fuel,
                gf >= 8 * (self.text().len() - self.cursor()) + 2,
                parse_arr_rest(old(self).text(), old(self).cursor(), am0, fuel) == parse_arr_rest(
                    self.text(),
                    self.cursor(),
                    arr_model(elems@),
                    gf,
                ),
            decreases self.text().len() - self.cursor(),
        {
            let ghost s = self.text();
            let ghost ci = self.cursor();
            let t = match self.consume() {
                Ok(t) => t,
                Err(e) => {
                    return Err(e);
                },
            };
            match t {
                Token::BracketOff => {
                    return Ok(JsonValue::Array(elems));
                },
                Token::Comma => {
                    let ghost cv = self.cursor();
                    let v = match self.value_fueled(Ghost((gf - 1) as nat)) {
                        Ok(v) => v,
                        Err(e) => {
                            return Err(e);
                        },
                    };
                    proof {
                        lemma_parse_at_props(s, cv, (gf - 1) as nat);
                    }
                    let ghost before = arr_model(elems@);
                    let ghost ev = elems@;
                    elems.push(v);
                    proof {
                        lemma_arr_model(elems@);
                        lemma_arr_model(ev);
                        assert(arr_model(elems@) =~= before.push(v@));
                        gf = (gf - 1) as nat;
                    }
                },
                t => {
                    return Err(JsonError::unexpected_token(t));
                },
            }
        }
    }
}

/// Reads exactly one JSON value from the whole of `json`: the parse fails on
/// the first offending character or token, and trailing content other than
/// whitespace is itself an offending token.
pub fn parse(json: &str) -> (r: JsonResult<JsonValue>)
    ensures
        match parse_text(json@) {
            Ok(m) => r matches Ok(v) && v@ == m && m.wf(),
            Err(e) => r matches Err(err) && err@ == e,
        },
{
    let mut parser = Parser::new(json);
    let v = match parser.value() {
        Ok(v) => v,
        Err(e) => {
            return Err(e);
        },
    };
    proof {
        lemma_parse_at_props(json@, 0, pfuel(json@, 0));
    }
    match parser.consume() {
        Err(JsonError::UnexpectedEndOfJson) => Ok(v),
        Ok(t) => Err(JsonError::unexpected_token(t)),
        Err(e) => Err(e),
    }
}

} // verus!
