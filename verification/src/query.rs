//! The supported statements: `SELECT projection FROM table [WHERE column = literal AND ..]`.

use vstd::prelude::*;
use vstd::slice::slice_subrange;
use crate::error::{Error, QueryExecutionError, QueryParseError, refines};
use crate::pattern::{captures, regex_captures};
use crate::record::{Record, Value};
use crate::text::{
    chars_of, eq_ignore_case, equal_ignore_case, is_space, is_space_char, is_word, is_word_char,
    pieces, split, split_at, trim, trimmed,
};

verus! {

/// The regular expression of a statement: it captures the projection, the name of the
/// table and, where there is a `WHERE`, the conditions.
pub const QUERY_PATTERN: &'static str = r#"(?i)SELECT\s+(.*)\s+FROM\s+(\w+)\s*(\s+WHERE\s+(.*))?$"#;

/// The parse error of a condition.
pub open spec fn bad_condition() -> Error {
    Error::QueryParse(QueryParseError::InvalidCondition)
}

/// A lexical unit of the conditions of a statement.
pub enum Token {
    /// A run of letters, digits, underscores and minus signs: a name, a keyword or a number.
    Word(Seq<char>),
    /// The sign `=`.
    Equals,
    /// What stands between two single or two double quotes.
    Quoted(Seq<char>),
}

/// The characters that a word is made of.
pub open spec fn is_literal_char(c: char) -> bool {
    is_word_char(c) || c == '-'
}

/// The first index from `i` on at which `s` has no blank character, or the length of `s`.
pub open spec fn skip_spaces(s: Seq<char>, i: int) -> int
    decreases s.len() - i,
{
    if 0 <= i < s.len() && is_space(s[i]) {
        skip_spaces(s, i + 1)
    } else {
        i
    }
}

/// The first index from `i` on at which `s` has no character of a word, or the length of `s`.
pub open spec fn word_end(s: Seq<char>, i: int) -> int
    decreases s.len() - i,
{
    if 0 <= i < s.len() && is_literal_char(s[i]) {
        word_end(s, i + 1)
    } else {
        i
    }
}

/// The first index from `i` on at which `s` has the character `quote`.
pub open spec fn quote_end(s: Seq<char>, i: int, quote: char) -> Option<int>
    decreases s.len() - i,
{
    if 0 <= i < s.len() {
        if s[i] == quote {
            Some(i)
        } else {
            quote_end(s, i + 1, quote)
        }
    } else {
        None
    }
}

/// The token that starts at index `i` of `s`, and the index after it.
pub open spec fn token_at(s: Seq<char>, i: int) -> Result<(Token, int), Error> {
    if s[i] == '=' {
        Ok((Token::Equals, i + 1))
    } else if s[i] == '\'' || s[i] == '"' {
        match quote_end(s, i + 1, s[i]) {
            None => Err(bad_condition()),
            Some(k) => Ok((Token::Quoted(s.subrange(i + 1, k)), k + 1)),
        }
    } else if is_literal_char(s[i]) {
        Ok((Token::Word(s.subrange(i, word_end(s, i))), word_end(s, i)))
    } else {
        Err(bad_condition())
    }
}

/// The tokens of `s` from index `i` on. Blank characters separate tokens and are no
/// part of them; a character that starts no token is an error.
pub open spec fn tokens_from(s: Seq<char>, i: int) -> Result<Seq<Token>, Error>
    decreases s.len() - i,
{
    let j = skip_spaces(s, i);
    if 0 <= i <= j < s.len() {
        match token_at(s, j) {
            Err(e) => Err(e),
            Ok((token, k)) => if j < k <= s.len() {
                match tokens_from(s, k) {
                    Err(e) => Err(e),
                    Ok(rest) => Ok(seq![token] + rest),
                }
            } else {
                Err(bad_condition())
            },
        }
    } else {
        Ok(Seq::empty())
    }
}

/// Whether `s` is a sequence of decimal digits.
pub open spec fn is_digits(s: Seq<char>) -> bool {
    forall|i: int| 0 <= i < s.len() ==> '0' <= #[trigger] s[i] <= '9'
}

/// The number that the decimal digits `s` spell.
pub open spec fn digits_value(s: Seq<char>) -> nat
    decreases s.len(),
{
    if s.len() == 0 {
        0
    } else {
        digits_value(s.drop_last()) * 10 + (s.last() as u32 - '0' as u32) as nat
    }
}

/// The integer that a word spells: decimal digits, after a minus sign or without one,
/// that amount to a number of 64 bits.
pub open spec fn integer_of(word: Seq<char>) -> Option<int> {
    if word.len() > 1 && word[0] == '-' && is_digits(word.skip(1)) && digits_value(word.skip(1))
        <= 0x8000_0000_0000_0000 {
        Some(-(digits_value(word.skip(1)) as int))
    } else if word.len() > 0 && is_digits(word) && digits_value(word) <= i64::MAX {
        Some(digits_value(word) as int)
    } else {
        None
    }
}

/// The value that a token stands for as a literal: the text between quotes, or the
/// integer that a word spells.
pub open spec fn literal_of(token: Token) -> Option<Value> {
    match token {
        Token::Quoted(text) => Some(Value::Text(text)),
        Token::Word(word) => match integer_of(word) {
            Some(n) => Some(Value::Integer(n)),
            None => None,
        },
        Token::Equals => None,
    }
}

/// Whether `name` can name a column: it is not empty, and made of letters, digits and
/// underscores alone.
pub open spec fn is_identifier(name: Seq<char>) -> bool {
    name.len() > 0 && forall|i: int| 0 <= i < name.len() ==> is_word_char(#[trigger] name[i])
}

/// The comparison of a condition.
#[derive(Debug, Clone, Copy, PartialEq, Eq, Structural)]
pub enum QueryConditionOp {
    Eq,
}

/// A condition, as a mathematical object.
pub struct ConditionModel {
    pub lhs: Seq<char>,
    pub op: QueryConditionOp,
    pub rhs: Value,
}

/// The conditions that a sequence of tokens spells: a name, the sign `=` and a literal,
/// and after that either nothing or the keyword `AND` and further conditions.
pub open spec fn conditions_from(tokens: Seq<Token>) -> Result<Seq<ConditionModel>, Error>
    decreases tokens.len(),
{
    if tokens.len() >= 3 && tokens[0] is Word && is_identifier(tokens[0]->Word_0) && tokens[1]
        is Equals && literal_of(tokens[2]) is Some {
        let first = ConditionModel {
            lhs: tokens[0]->Word_0,
            op: QueryConditionOp::Eq,
            rhs: literal_of(tokens[2])->0,
        };
        if tokens.len() == 3 {
            Ok(seq![first])
        } else if tokens[3] is Word && eq_ignore_case(tokens[3]->Word_0, "and"@) {
            match conditions_from(tokens.skip(4)) {
                Err(e) => Err(e),
                Ok(rest) => Ok(seq![first] + rest),
            }
        } else {
            Err(bad_condition())
        }
    } else {
        Err(bad_condition())
    }
}

/// The conditions that the text after `WHERE` spells.
pub open spec fn conditions_of(text: Seq<char>) -> Result<Seq<ConditionModel>, Error> {
    match tokens_from(text, 0) {
        Err(e) => Err(e),
        Ok(tokens) => conditions_from(tokens),
    }
}

/// The one condition that `text` spells.
pub open spec fn condition_of(text: Seq<char>) -> Result<ConditionModel, Error> {
    match conditions_of(text) {
        Err(e) => Err(e),
        Ok(conditions) => if conditions.len() == 1 {
            Ok(conditions[0])
        } else {
            Err(bad_condition())
        },
    }
}

/// The integer that a value stands for in a comparison.
pub open spec fn as_integer(value: Value) -> Option<int> {
    match value {
        Value::Integer(n) => Some(n),
        Value::Zero => Some(0),
        Value::One => Some(1),
        _ => None,
    }
}

/// Whether two values are equal: both are integers and the same number, or both are
/// texts and the same text. Floating-point numbers and blobs cannot be compared.
pub open spec fn values_equal(lhs: Value, rhs: Value) -> Result<bool, Error> {
    if lhs is Float64 || lhs is Blob || rhs is Float64 || rhs is Blob {
        Err(Error::QueryExecution(QueryExecutionError::ComparisonNotImplemented))
    } else if as_integer(lhs) is Some && as_integer(rhs) is Some {
        Ok(as_integer(lhs)->0 == as_integer(rhs)->0)
    } else if lhs is Text && rhs is Text {
        Ok(lhs->Text_0 == rhs->Text_0)
    } else {
        Ok(false)
    }
}

impl QueryConditionOp {
    /// The outcome of the comparison of a stored value with a literal.
    pub open spec fn holds(&self, lhs: Value, rhs: Value) -> Result<bool, Error> {
        values_equal(lhs, rhs)
    }

    /// Compares a stored value with a literal.
    pub fn eval(&self, lhs: &Record, rhs: &Record) -> (r: Result<bool, Error>)
        ensures
            r == self.holds(lhs@, rhs@),
    {
        let left = match lhs {
            Record::Float64(_) | Record::Blob(_) => {
                return Err(Error::QueryExecution(QueryExecutionError::ComparisonNotImplemented));
            },
            Record::Integer(n) => Some(*n),
            Record::Zero => Some(0i64),
            Record::One => Some(1i64),
            _ => None,
        };
        let right = match rhs {
            Record::Float64(_) | Record::Blob(_) => {
                return Err(Error::QueryExecution(QueryExecutionError::ComparisonNotImplemented));
            },
            Record::Integer(n) => Some(*n),
            Record::Zero => Some(0i64),
            Record::One => Some(1i64),
            _ => None,
        };
        match (left, right) {
            (Some(a), Some(b)) => {
                return Ok(a == b);
            },
            _ => {},
        }
        match (lhs, rhs) {
            (Record::Text(a), Record::Text(b)) => Ok(*a == *b),
            _ => Ok(false),
        }
    }
}

/// What a failing step makes of what came before it, and a succeeding step adds to it.
pub open spec fn after<T>(done: Seq<T>, rest: Result<Seq<T>, Error>) -> Result<Seq<T>, Error> {
    match rest {
        Ok(more) => Ok(done + more),
        Err(e) => Err(e),
    }
}

/// The bounds of a token in the text that it was found in.
#[derive(Debug, Clone, Copy)]
pub enum Lexeme {
    Word(usize, usize),
    Equals,
    Quoted(usize, usize),
}

impl Lexeme {
    /// The token that the lexeme bounds in `s`.
    pub open spec fn token(&self, s: Seq<char>) -> Token {
        match self {
            Lexeme::Word(from, to) => Token::Word(s.subrange(*from as int, *to as int)),
            Lexeme::Equals => Token::Equals,
            Lexeme::Quoted(from, to) => Token::Quoted(s.subrange(*from as int, *to as int)),
        }
    }

    /// The bounds lie within `s`.
    pub open spec fn within(&self, s: Seq<char>) -> bool {
        match self {
            Lexeme::Word(from, to) | Lexeme::Quoted(from, to) => *from <= *to <= s.len(),
            Lexeme::Equals => true,
        }
    }
}

/// The tokens that the lexemes bound in `s`.
pub open spec fn tokens_of(s: Seq<char>, lexemes: Seq<Lexeme>) -> Seq<Token> {
    lexemes.map_values(|l: Lexeme| l.token(s))
}

/// Splits the text after `WHERE` into tokens.
pub fn tokenize(s: &[char]) -> (r: Result<Vec<Lexeme>, Error>)
    ensures
        match tokens_from(s@, 0) {
            Ok(tokens) => r is Ok && tokens_of(s@, r->Ok_0@) == tokens && forall|k: int|
                0 <= k < r->Ok_0@.len() ==> (#[trigger] r->Ok_0@[k]).within(s@),
            Err(e) => r == Err::<Vec<Lexeme>, Error>(e),
        },
{
    let mut lexemes: Vec<Lexeme> = Vec::new();
    let mut i: usize = 0;
    proof {
        assert(tokens_of(s@, lexemes@) =~= Seq::<Token>::empty());
        assert(Seq::<Token>::empty() + tokens_from(s@, 0)->Ok_0 =~= tokens_from(s@, 0)->Ok_0);
    }
    loop
        invariant
            i <= s@.len(),
            tokens_from(s@, 0) == after(tokens_of(s@, lexemes@), tokens_from(s@, i as int)),
            forall|k: int| 0 <= k < lexemes@.len() ==> (#[trigger] lexemes@[k]).within(s@),
        decreases s@.len() - i,
    {
        let mut j: usize = i;
        while j < s.len() && is_space_char(s[j])
            invariant
                i <= j <= s@.len(),
                skip_spaces(s@, i as int) == skip_spaces(s@, j as int),
            decreases s@.len() - j,
        {
            j = j + 1;
        }
        if j >= s.len() {
            proof {
                assert(tokens_of(s@, lexemes@) + Seq::<Token>::empty() =~= tokens_of(s@, lexemes@));
            }
            return Ok(lexemes);
        }
        let c = s[j];
        let ghost done = tokens_of(s@, lexemes@);
        let lexeme;
        let next: usize;
        if c == '=' {
            lexeme = Lexeme::Equals;
            next = j + 1;
        } else if c == '\'' || c == '"' {
            let mut k: usize = j + 1;
            while k < s.len() && s[k] != c
                invariant
                    j < k <= s@.len(),
                    quote_end(s@, j + 1, c) == quote_end(s@, k as int, c),
                decreases s@.len() - k,
            {
                k = k + 1;
            }
            if k >= s.len() {
                return Err(Error::QueryParse(QueryParseError::InvalidCondition));
            }
            lexeme = Lexeme::Quoted(j + 1, k);
            next = k + 1;
        } else if is_word(c) || c == '-' {
            let mut k: usize = j + 1;
            while k < s.len() && (is_word(s[k]) || s[k] == '-')
                invariant
                    j < k <= s@.len(),
                    word_end(s@, j as int) == word_end(s@, k as int),
                decreases s@.len() - k,
            {
                k = k + 1;
            }
            lexeme = Lexeme::Word(j, k);
            next = k;
        } else {
            return Err(Error::QueryParse(QueryParseError::InvalidCondition));
        }
        proof {
            assert(token_at(s@, j as int) == Ok::<(Token, int), Error>(
                (lexeme.token(s@), next as int),
            ));
            let rest = tokens_from(s@, next as int);
            if rest is Ok {
                assert(done + (seq![lexeme.token(s@)] + rest->Ok_0) =~= done.push(lexeme.token(s@))
                    + rest->Ok_0);
            }
        }
        lexemes.push(lexeme);
        assert(tokens_of(s@, lexemes@) =~= done.push(lexeme.token(s@)));
        i = next;
    }
}

proof fn lemma_digits_prefix(s: Seq<char>, k: int)
    requires
        0 <= k <= s.len(),
    ensures
        digits_value(s.take(k)) <= digits_value(s),
    decreases s.len(),
{
    if k < s.len() {
        assert(s.drop_last().take(k) =~= s.take(k));
        lemma_digits_prefix(s.drop_last(), k);
    } else {
        assert(s.take(k) =~= s);
    }
}

/// The number that decimal digits spell, where it is at most `limit`.
fn parse_digits(digits: &[char], limit: u64) -> (r: Option<u64>)
    ensures
        r == if is_digits(digits@) && digits_value(digits@) <= limit {
            Some(digits_value(digits@) as u64)
        } else {
            None
        },
{
    let mut acc: u64 = 0;
    let mut i: usize = 0;
    proof {
        assert(digits@.take(0) =~= Seq::<char>::empty());
    }
    while i < digits.len()
        invariant
            i <= digits@.len(),
            is_digits(digits@.take(i as int)),
            acc == digits_value(digits@.take(i as int)),
            acc <= limit,
        decreases digits@.len() - i,
    {
        let c = digits[i];
        if !('0' <= c && c <= '9') {
            assert(!is_digits(digits@)) by {
                assert(digits@[i as int] == c);
            }
            return None;
        }
        let d: u64 = (c as u32 - '0' as u32) as u64;
        proof {
            assert(digits@.take(i + 1).drop_last() =~= digits@.take(i as int));
            assert(digits@.take(i + 1).last() == c);
            assert(is_digits(digits@.take(i + 1))) by {
                assert forall|k: int| 0 <= k < i + 1 implies '0' <= #[trigger] digits@.take(i + 1)[k]
                    <= '9' by {
                    if k < i {
                        assert(digits@.take(i as int)[k] == digits@.take(i + 1)[k]);
                    }
                }
            }
        }
        if d > limit || acc > (limit - d) / 10 {
            proof {
                lemma_digits_prefix(digits@, i + 1);
            }
            return None;
        }
        acc = acc * 10 + d;
        i = i + 1;
    }
    assert(digits@.take(i as int) =~= digits@);
    Some(acc)
}

/// The integer that a word spells.
pub fn parse_integer(word: &[char]) -> (r: Option<i64>)
    ensures
        match integer_of(word@) {
            Some(n) => r == Some(n as i64) && i64::MIN <= n <= i64::MAX,
            None => r is None,
        },
{
    if word.len() > 1 && word[0] == '-' {
        let digits = slice_subrange(word, 1, word.len());
        assert(digits@ =~= word@.skip(1));
        assert(!is_digits(word@)) by {
            assert(word@[0] == '-');
        }
        match parse_digits(digits, 0x8000_0000_0000_0000) {
            Some(v) => if v == 0x8000_0000_0000_0000 {
                Some(i64::MIN)
            } else {
                Some(-(v as i64))
            },
            None => None,
        }
    } else if word.len() > 0 {
        match parse_digits(word, 0x7fff_ffff_ffff_ffff) {
            Some(v) => Some(v as i64),
            None => None,
        }
    } else {
        None
    }
}

/// Whether a word can name a column.
pub fn is_name(word: &[char]) -> (r: bool)
    ensures
        r == is_identifier(word@),
{
    if word.len() == 0 {
        return false;
    }
    let mut i: usize = 0;
    while i < word.len()
        invariant
            i <= word@.len(),
            forall|k: int| 0 <= k < i ==> is_word_char(#[trigger] word@[k]),
        decreases word@.len() - i,
    {
        if !is_word(word[i]) {
            return false;
        }
        i = i + 1;
    }
    true
}

/// A condition of a statement: a column, a comparison and a literal.
#[derive(Debug)]
pub struct QueryCondition {
    pub lhs: String,
    pub op: QueryConditionOp,
    pub rhs: Record,
}

impl View for QueryCondition {
    type V = ConditionModel;

    open spec fn view(&self) -> ConditionModel {
        ConditionModel { lhs: self.lhs@, op: self.op, rhs: self.rhs@ }
    }
}

/// The conditions of a statement, as mathematical objects.
pub open spec fn condition_models(conditions: Seq<QueryCondition>) -> Seq<ConditionModel> {
    conditions.map_values(|c: QueryCondition| c@)
}

/// What a statement asks for, as a mathematical object.
pub enum Projection {
    Count,
    List(Seq<Seq<char>>),
}

/// What a statement asks for: the number of rows, or some of their columns.
#[derive(Debug)]
pub enum QueryField {
    Count,
    List(Vec<String>),
}

impl View for QueryField {
    type V = Projection;

    open spec fn view(&self) -> Projection {
        match self {
            QueryField::Count => Projection::Count,
            QueryField::List(names) => Projection::List(names@.map_values(|n: String| n@)),
        }
    }
}

/// A statement, as a mathematical object.
pub struct QueryModel {
    pub fields: Projection,
    pub source: Seq<char>,
    pub conditions: Seq<ConditionModel>,
}

/// A parsed statement.
#[derive(Debug)]
pub struct Query {
    pub fields: QueryField,
    pub source: String,
    pub conditions: Vec<QueryCondition>,
}

impl View for Query {
    type V = QueryModel;

    open spec fn view(&self) -> QueryModel {
        QueryModel {
            fields: self.fields@,
            source: self.source@,
            conditions: condition_models(self.conditions@),
        }
    }
}

/// The name of a column of a projection: a piece of the list without the blank
/// characters at its ends, which must leave something.
pub open spec fn column_of(piece: Seq<char>) -> Result<Seq<char>, Error> {
    if trimmed(piece).len() == 0 {
        Err(Error::QueryParse(QueryParseError::InvalidProjection))
    } else {
        Ok(trimmed(piece))
    }
}

/// Whether `text` begins with `count(`, whatever the case of the letters.
pub open spec fn asks_for_count(text: Seq<char>) -> bool {
    text.len() >= 6 && eq_ignore_case(text.take(6), "count("@)
}

/// What the text between `SELECT` and `FROM` asks for: `COUNT(*)`, or the columns that
/// its commas separate. A text that begins like a count and is none is refused.
pub open spec fn projection_of(text: Seq<char>) -> Result<Projection, Error> {
    if asks_for_count(trimmed(text)) {
        if eq_ignore_case(trimmed(text), "count(*)"@) {
            Ok(Projection::Count)
        } else {
            Err(Error::QueryParse(QueryParseError::InvalidProjection))
        }
    } else {
        match crate::sequence::try_map(split(text, ','), |piece: Seq<char>| column_of(piece)) {
            Err(e) => Err(e),
            Ok(names) => Ok(Projection::List(names)),
        }
    }
}

/// The statement that the groups of a match of `QUERY_PATTERN` describe.
pub open spec fn query_of(groups: Option<Seq<Option<Seq<char>>>>) -> Result<QueryModel, Error> {
    let g = groups->0;
    if groups is Some && g.len() == 5 && g[1] is Some && g[2] is Some {
        match projection_of(g[1]->0) {
            Err(e) => Err(e),
            Ok(fields) => match (if g[4] is Some {
                conditions_of(g[4]->0)
            } else {
                Ok(Seq::empty())
            }) {
                Err(e) => Err(e),
                Ok(conditions) => Ok(QueryModel { fields, source: trimmed(g[2]->0), conditions }),
            },
        }
    } else {
        Err(Error::QueryParse(QueryParseError::StatementNotRecognized))
    }
}

/// The statement that a command text spells.
pub open spec fn statement(raw: Seq<char>) -> Result<QueryModel, Error> {
    query_of(regex_captures(QUERY_PATTERN@, raw))
}

impl QueryField {
    /// Parses what stands between `SELECT` and `FROM`.
    pub fn parse(text: &str) -> (r: Result<Self, Error>)
        ensures
            refines(r, projection_of(text@)),
    {
        let chars = chars_of(text);
        let (first, last) = trim(chars.as_slice());
        let inner = slice_subrange(chars.as_slice(), first, last);
        if inner.len() >= 6 && equal_ignore_case(
            slice_subrange(inner, 0, 6),
            chars_of("count(").as_slice(),
        ) {
            if equal_ignore_case(inner, chars_of("count(*)").as_slice()) {
                return Ok(QueryField::Count);
            }
            return Err(Error::QueryParse(QueryParseError::InvalidProjection));
        }
        let ranges = split_at(chars.as_slice(), ',');
        let ghost columns = split(text@, ',');
        let ghost parse = |piece: Seq<char>| column_of(piece);
        let mut names: Vec<String> = Vec::new();
        let mut k: usize = 0;
        proof {
            assert(columns.take(0) =~= Seq::<Seq<char>>::empty());
            assert(names@.map_values(|n: String| n@) =~= Seq::<Seq<char>>::empty());
        }
        while k < ranges.len()
            invariant
                k <= ranges@.len(),
                chars@ == text@,
                !asks_for_count(trimmed(text@)),
                columns == split(text@, ','),
                pieces(chars@, ranges@) == columns,
                parse == |piece: Seq<char>| column_of(piece),
                forall|n: int|
                    0 <= n < ranges@.len() ==> (#[trigger] ranges@[n]).0 <= ranges@[n].1
                        <= chars@.len(),
                crate::sequence::try_map(columns.take(k as int), parse) == Ok::<
                    Seq<Seq<char>>,
                    Error,
                >(names@.map_values(|n: String| n@)),
            decreases ranges@.len() - k,
        {
            let (from, to) = ranges[k];
            let piece = slice_subrange(chars.as_slice(), from, to);
            assert(piece@ == columns[k as int]);
            let (a, b) = trim(piece);
            proof {
                crate::sequence::lemma_try_map_next(columns, parse, k as int);
            }
            if a == b {
                proof {
                    crate::sequence::lemma_try_map_failed(columns, parse, k + 1);
                }
                return Err(Error::QueryParse(QueryParseError::InvalidProjection));
            }
            let name = text.substring_char(from + a, from + b).to_owned();
            assert(name@ =~= trimmed(columns[k as int]));
            let ghost before = names@.map_values(|n: String| n@);
            names.push(name);
            assert(names@.map_values(|n: String| n@) =~= before.push(name@));
            k = k + 1;
        }
        assert(columns.take(k as int) =~= columns);
        Ok(QueryField::List(names))
    }
}

impl Query {
    /// The statement that the groups of a match of `QUERY_PATTERN` describe.
    pub fn from_captures(groups: &Option<Vec<Option<String>>>) -> (r: Result<Self, Error>)
        ensures
            refines(r, query_of(groups.deep_view())),
    {
        let Some(found) = groups else {
            return Err(Error::QueryParse(QueryParseError::StatementNotRecognized));
        };
        assert(groups.deep_view()->0.len() == found@.len());
        if found.len() != 5 {
            return Err(Error::QueryParse(QueryParseError::StatementNotRecognized));
        }
        assert(groups.deep_view()->0[1] == found@[1].deep_view());
        assert(groups.deep_view()->0[2] == found@[2].deep_view());
        assert(groups.deep_view()->0[4] == found@[4].deep_view());
        let (Some(projection), Some(table)) = (&found[1], &found[2]) else {
            return Err(Error::QueryParse(QueryParseError::StatementNotRecognized));
        };
        let fields = QueryField::parse(projection.as_str())?;
        let conditions = match &found[4] {
            Some(text) => Self::parse_conditions(text.as_str())?,
            None => Vec::new(),
        };
        assert(found@[4] is None ==> condition_models(conditions@) =~= Seq::<
            ConditionModel,
        >::empty());
        let table_chars = chars_of(table.as_str());
        let (first, last) = trim(table_chars.as_slice());
        let source = table.as_str().substring_char(first, last).to_owned();
        Ok(Self { fields, source, conditions })
    }

    /// Parses a statement of the form `SELECT projection FROM table [WHERE conditions]`.
    pub fn parse(raw: &str) -> (r: Result<Self, Error>)
        ensures
            refines(r, statement(raw@)),
    {
        let groups = captures(QUERY_PATTERN, raw);
        Self::from_captures(&groups)
    }

    /// Parses the conditions that stand after `WHERE`.
    pub fn parse_conditions(raw: &str) -> (r: Result<Vec<QueryCondition>, Error>)
        ensures
            match conditions_of(raw@) {
                Ok(conditions) => r is Ok && condition_models(r->Ok_0@) == conditions,
                Err(e) => r matches Err(f) && f == e,
            },
    {
        let chars = chars_of(raw);
        let lexemes = tokenize(chars.as_slice())?;
        let ghost tokens = tokens_of(chars@, lexemes@);
        let mut conditions: Vec<QueryCondition> = Vec::new();
        let mut p: usize = 0;
        proof {
            assert(tokens.skip(0) =~= tokens);
            assert(condition_models(conditions@) =~= Seq::<ConditionModel>::empty());
            assert(Seq::<ConditionModel>::empty() + conditions_from(tokens)->Ok_0
                =~= conditions_from(tokens)->Ok_0);
        }
        loop
            invariant
                p <= lexemes@.len(),
                chars@ == raw@,
                tokens == tokens_of(chars@, lexemes@),
                forall|k: int| 0 <= k < lexemes@.len() ==> (#[trigger] lexemes@[k]).within(chars@),
                conditions_from(tokens) == after(
                    condition_models(conditions@),
                    conditions_from(tokens.skip(p as int)),
                ),
                tokens_from(raw@, 0) == Ok::<Seq<Token>, Error>(tokens),
            decreases lexemes@.len() - p,
        {
            let ghost rest = tokens.skip(p as int);
            let ghost done = condition_models(conditions@);
            if lexemes.len() - p < 3 {
                return Err(Error::QueryParse(QueryParseError::InvalidCondition));
            }
            assert(rest[0] == lexemes@[p as int].token(chars@));
            assert(rest[1] == lexemes@[p + 1].token(chars@));
            assert(rest[2] == lexemes@[p + 2].token(chars@));
            assert(lexemes@[p as int].within(chars@));
            assert(lexemes@[p + 2].within(chars@));
            let (Lexeme::Word(from, to), Lexeme::Equals) = (lexemes[p], lexemes[p + 1]) else {
                return Err(Error::QueryParse(QueryParseError::InvalidCondition));
            };
            if !is_name(slice_subrange(chars.as_slice(), from, to)) {
                return Err(Error::QueryParse(QueryParseError::InvalidCondition));
            }
            let rhs = match lexemes[p + 2] {
                Lexeme::Quoted(a, b) => Record::Text(raw.substring_char(a, b).to_owned()),
                Lexeme::Word(a, b) => match parse_integer(slice_subrange(chars.as_slice(), a, b)) {
                    Some(n) => Record::Integer(n),
                    None => {
                        return Err(Error::QueryParse(QueryParseError::InvalidCondition));
                    },
                },
                Lexeme::Equals => {
                    return Err(Error::QueryParse(QueryParseError::InvalidCondition));
                },
            };
            let condition = QueryCondition {
                lhs: raw.substring_char(from, to).to_owned(),
                op: QueryConditionOp::Eq,
                rhs,
            };
            let ghost first = condition@;
            conditions.push(condition);
            assert(condition_models(conditions@) =~= done.push(first));
            if lexemes.len() - p == 3 {
                proof {
                    assert(done + seq![first] =~= done.push(first));
                }
                return Ok(conditions);
            }
            assert(rest[3] == lexemes@[p + 3].token(chars@));
            assert(lexemes@[p + 3].within(chars@));
            let Lexeme::Word(a, b) = lexemes[p + 3] else {
                return Err(Error::QueryParse(QueryParseError::InvalidCondition));
            };
            if !equal_ignore_case(slice_subrange(chars.as_slice(), a, b), chars_of("and").as_slice()) {
                return Err(Error::QueryParse(QueryParseError::InvalidCondition));
            }
            proof {
                assert(rest.skip(4) =~= tokens.skip(p + 4));
                let more = conditions_from(tokens.skip(p + 4));
                if more is Ok {
                    assert(done + (seq![first] + more->Ok_0) =~= done.push(first) + more->Ok_0);
                }
            }
            p = p + 4;
        }
    }

    /// Parses one condition of the form `column = literal`.
    pub fn parse_condition(raw: &str) -> (r: Result<QueryCondition, Error>)
        ensures
            refines(r, condition_of(raw@)),
    {
        let mut conditions = Self::parse_conditions(raw)?;
        if conditions.len() != 1 {
            return Err(Error::QueryParse(QueryParseError::InvalidCondition));
        }
        let ghost models = condition_models(conditions@);
        assert(models[0] == conditions@[0]@);
        match conditions.pop() {
            Some(condition) => Ok(condition),
            None => Err(Error::QueryParse(QueryParseError::InvalidCondition)),
        }
    }
}

} // verus!
