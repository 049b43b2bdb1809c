//! The surface syntax: s-expression trees, and the parser that reads them
//! from text.
//!
//! The grammar is small: a program is one s-expression; an s-expression is
//! a signed decimal number, an identifier (any other run of characters
//! outside whitespace and brackets), or a parenthesised or bracketed list
//! of s-expressions. `(` and `[` open a list interchangeably, `)` and `]`
//! close one.

use vstd::prelude::*;

verus! {

/// A generic s-expression tree. Identifiers are free-form until name
/// resolution replaces the bound ones by positional variable references.
#[derive(Debug, PartialEq, Eq)]
pub enum SExp {
    /// A signed 64-bit number literal.
    ConstNumber(i64),
    /// A free-form identifier.
    Ident(String),
    /// A positional variable reference, introduced by name resolution.
    Var(usize),
    /// A list of sub-expressions.
    List(Vec<SExp>),
}

/// The mathematical image of an [`SExp`]: the same tree with identifiers
/// as character sequences and lists as mathematical sequences.
pub ghost enum Tree {
    /// A signed 64-bit number literal.
    Num(i64),
    /// A free-form identifier.
    Ident(Seq<char>),
    /// A positional variable reference.
    Var(usize),
    /// A list of sub-expressions.
    List(Seq<Tree>),
}

impl SExp {
    /// The mathematical image of this tree.
    pub open spec fn view(&self) -> Tree
        decreases self,
    {
        match self {
            SExp::ConstNumber(i) => Tree::Num(*i),
            SExp::Ident(s) => Tree::Ident(s@),
            SExp::Var(p) => Tree::Var(*p),
            SExp::List(l) => Tree::List(view_trees(l@)),
        }
    }
}

/// The elementwise mathematical image of a sequence of trees.
pub open spec fn view_trees(l: Seq<SExp>) -> Seq<Tree>
    decreases l,
{
    if l.len() == 0 {
        Seq::empty()
    } else {
        seq![l[0]@] + view_trees(l.drop_first())
    }
}

/// `view_trees` keeps the length and maps each element to its image.
pub broadcast proof fn lemma_view_trees(l: Seq<SExp>)
    ensures
        (#[trigger] view_trees(l)).len() == l.len(),
        forall|i: int|
            #![trigger view_trees(l)[i]]
            #![trigger l[i]@]
            0 <= i < l.len() ==> view_trees(l)[i] == l[i]@,
    decreases l,
{
    if l.len() > 0 {
        lemma_view_trees(l.drop_first());
        assert forall|i: int| 0 <= i < l.len() implies view_trees(l)[i] == #[trigger] l[i]@ by {
            if i > 0 {
                assert(view_trees(l)[i] == view_trees(l.drop_first())[i - 1]);
                assert(l.drop_first()[i - 1] == l[i]);
            }
        }
    }
}

/// A compile-time shape fault: a subtree did not have the form a
/// binding or dispatch site required.
#[derive(Debug, PartialEq, Eq, Structural, Clone, Copy)]
pub enum ShapeFault {
    /// A list was required.
    ExpectedList,
    /// An identifier was required.
    ExpectedIdent,
    /// A positional variable reference was required.
    ExpectedVar,
    /// A binding form was missing a required part.
    MissingPart,
    /// The position-id counter was exhausted.
    TooManyIds,
}

impl SExp {
    /// Returns the elements this list holds, or a shape fault.
    pub fn expect_list(&self) -> (r: Result<&Vec<SExp>, ShapeFault>)
        ensures
            match self {
                SExp::List(_) => r matches Ok(v) && Tree::List(view_trees(v@)) == self@,
                _ => r == Err::<&Vec<SExp>, ShapeFault>(ShapeFault::ExpectedList),
            },
    {
        match self {
            SExp::List(l) => Ok(l),
            _ => Err(ShapeFault::ExpectedList),
        }
    }

    /// Returns the name this identifier holds, or a shape fault.
    pub fn expect_ident(&self) -> (r: Result<&str, ShapeFault>)
        ensures
            match self {
                SExp::Ident(_) => r matches Ok(s) && Tree::Ident(s@) == self@,
                _ => r == Err::<&str, ShapeFault>(ShapeFault::ExpectedIdent),
            },
    {
        match self {
            SExp::Ident(s) => Ok(s.as_str()),
            _ => Err(ShapeFault::ExpectedIdent),
        }
    }

    /// Returns the position this variable reference holds, or a shape fault.
    pub fn expect_var(&self) -> (r: Result<usize, ShapeFault>)
        ensures
            match self {
                SExp::Var(_) => r matches Ok(p) && Tree::Var(p) == self@,
                _ => r == Err::<usize, ShapeFault>(ShapeFault::ExpectedVar),
            },
    {
        match self {
            SExp::Var(p) => Ok(*p),
            _ => Err(ShapeFault::ExpectedVar),
        }
    }
}

/// Whether `e` is exactly the keyword identifier `kw`.
pub fn ident_is(e: &SExp, kw: &str) -> (b: bool)
    ensures
        b == (e@ == Tree::Ident(kw@)),
{
    match e {
        SExp::Ident(s) => {
            let k = kw.to_owned();
            s.eq(&k)
        },
        _ => false,
    }
}

/// A fault raised while reading source text.
#[derive(Debug, PartialEq, Eq, Structural, Clone, Copy)]
pub enum ParseFault {
    /// A number literal does not fit a signed 64-bit integer.
    NumberOutOfRange,
    /// A closing bracket appeared with no list open, or the text ended
    /// inside a list.
    Unbalanced,
    /// The text held no expression at all.
    Empty,
    /// Tokens remained after the first complete expression.
    TrailingText,
}

/// One token of the surface syntax.
#[derive(Debug, PartialEq, Eq)]
pub enum Token {
    /// An opening bracket.
    Open,
    /// A closing bracket.
    Close,
    /// A signed number literal.
    Num(i64),
    /// Any other atom.
    Ident(String),
}

/// The mathematical image of a [`Token`].
pub ghost enum TokenT {
    /// An opening bracket.
    Open,
    /// A closing bracket.
    Close,
    /// A signed number literal.
    Num(i64),
    /// Any other atom.
    Ident(Seq<char>),
}

impl Token {
    /// The mathematical image of this token.
    pub open spec fn view(&self) -> TokenT {
        match self {
            Token::Open => TokenT::Open,
            Token::Close => TokenT::Close,
            Token::Num(n) => TokenT::Num(*n),
            Token::Ident(s) => TokenT::Ident(s@),
        }
    }
}

/// The elementwise mathematical image of a token sequence.
pub open spec fn view_tokens(l: Seq<Token>) -> Seq<TokenT>
    decreases l,
{
    if l.len() == 0 {
        Seq::empty()
    } else {
        seq![l[0]@] + view_tokens(l.drop_first())
    }
}

/// `view_tokens` keeps the length and maps each element to its image.
pub broadcast proof fn lemma_view_tokens(l: Seq<Token>)
    ensures
        (#[trigger] view_tokens(l)).len() == l.len(),
        forall|i: int|
            #![trigger view_tokens(l)[i]]
            #![trigger l[i]@]
            0 <= i < l.len() ==> view_tokens(l)[i] == l[i]@,
    decreases l,
{
    if l.len() > 0 {
        lemma_view_tokens(l.drop_first());
        assert forall|i: int| 0 <= i < l.len() implies view_tokens(l)[i] == #[trigger] l[i]@ by {
            if i > 0 {
                assert(view_tokens(l)[i] == view_tokens(l.drop_first())[i - 1]);
                assert(l.drop_first()[i - 1] == l[i]);
            }
        }
    }
}

/// Whitespace separates tokens and is otherwise ignored.
pub open spec fn is_space(c: char) -> bool {
    c == ' ' || c == '\n' || c == '\t' || c == '\r'
}

/// A bracket that opens a list.
pub open spec fn is_open(c: char) -> bool {
    c == '(' || c == '['
}

/// A bracket that closes a list.
pub open spec fn is_close(c: char) -> bool {
    c == ')' || c == ']'
}

/// A character that ends an atom.
pub open spec fn is_delim(c: char) -> bool {
    is_space(c) || is_open(c) || is_close(c)
}

/// A decimal digit.
pub open spec fn is_digit(c: char) -> bool {
    '0' <= c && c <= '9'
}

/// Every character of `w` is a decimal digit.
pub open spec fn all_digits(w: Seq<char>) -> bool {
    forall|i: int| 0 <= i < w.len() ==> is_digit(#[trigger] w[i])
}

/// The value of a digit string read in base ten.
pub open spec fn digits_val(w: Seq<char>) -> int
    decreases w.len(),
{
    if w.len() == 0 {
        0
    } else {
        digits_val(w.drop_last()) * 10 + (w.last() as int - '0' as int)
    }
}

/// The token an atom makes: a number when it is all digits, with an
/// optional leading minus sign, and an identifier otherwise; a number
/// outside the signed 64-bit range makes no token at all.
pub open spec fn atom_token(w: Seq<char>) -> Option<TokenT> {
    if w.len() > 0 && all_digits(w) {
        if digits_val(w) <= i64::MAX {
            Some(TokenT::Num(digits_val(w) as i64))
        } else {
            None
        }
    } else if w.len() >= 2 && w[0] == '-' && all_digits(w.drop_first()) {
        if -digits_val(w.drop_first()) >= i64::MIN {
            Some(TokenT::Num((-digits_val(w.drop_first())) as i64))
        } else {
            None
        }
    } else {
        Some(TokenT::Ident(w))
    }
}

/// The token stream of `s` from position `i` on, with `cur` the atom
/// characters read so far and `acc` the tokens already made; nothing
/// when a number literal is out of range.
pub open spec fn tokenize_rec(
    s: Seq<char>,
    i: int,
    cur: Seq<char>,
    acc: Seq<TokenT>,
) -> Option<Seq<TokenT>>
    decreases s.len() - i,
{
    if i < 0 || i >= s.len() {
        if cur.len() == 0 {
            Some(acc)
        } else {
            match atom_token(cur) {
                Some(t) => Some(acc.push(t)),
                None => None,
            }
        }
    } else {
        let c = s[i];
        if !is_delim(c) {
            tokenize_rec(s, i + 1, cur.push(c), acc)
        } else {
            let flushed = if cur.len() == 0 {
                Some(acc)
            } else {
                match atom_token(cur) {
                    Some(t) => Some(acc.push(t)),
                    None => None,
                }
            };
            match flushed {
                None => None,
                Some(acc2) => if is_open(c) {
                    tokenize_rec(s, i + 1, Seq::empty(), acc2.push(TokenT::Open))
                } else if is_close(c) {
                    tokenize_rec(s, i + 1, Seq::empty(), acc2.push(TokenT::Close))
                } else {
                    tokenize_rec(s, i + 1, Seq::empty(), acc2)
                },
            }
        }
    }
}

/// The token stream of a whole text.
pub open spec fn tokens_of(s: Seq<char>) -> Option<Seq<TokenT>> {
    tokenize_rec(s, 0, Seq::empty(), Seq::empty())
}

/// The parse of one s-expression starting at token `i`: the tree and the
/// position just past it. The guards on the recursive positions can only
/// fail on indices no parse produces.
pub open spec fn parse_at(toks: Seq<TokenT>, i: int) -> Option<(Tree, int)>
    decreases toks.len() - i, 0int,
{
    if i < 0 || i >= toks.len() {
        None
    } else {
        match toks[i] {
            TokenT::Num(n) => Some((Tree::Num(n), i + 1)),
            TokenT::Ident(w) => Some((Tree::Ident(w), i + 1)),
            TokenT::Close => None,
            TokenT::Open => match parse_items(toks, i + 1) {
                Some((items, j)) => if j < toks.len() && toks[j] is Close {
                    Some((Tree::List(items), j + 1))
                } else {
                    None
                },
                None => None,
            },
        }
    }
}

/// The parse of a run of list elements starting at token `i`, ending
/// just before the closing bracket.
pub open spec fn parse_items(toks: Seq<TokenT>, i: int) -> Option<(Seq<Tree>, int)>
    decreases toks.len() - i, 1int,
{
    if i < 0 || i >= toks.len() {
        None
    } else if toks[i] is Close {
        Some((Seq::empty(), i))
    } else {
        match parse_at(toks, i) {
            Some((t, j)) => if i < j <= toks.len() {
                match parse_items(toks, j) {
                    Some((ts, k)) => Some((seq![t] + ts, k)),
                    None => None,
                }
            } else {
                None
            },
            None => None,
        }
    }
}

/// The tree a whole text parses to: its token stream must hold exactly
/// one s-expression.
pub open spec fn parse_text(s: Seq<char>) -> Option<Tree> {
    match tokens_of(s) {
        None => None,
        Some(toks) => match parse_at(toks, 0) {
            Some((t, j)) => if j == toks.len() {
                Some(t)
            } else {
                None
            },
            None => None,
        },
    }
}

/// A digit string's value never shrinks as more digits are read, and is
/// never negative.
proof fn lemma_digits_mono(w: Seq<char>, k: int)
    requires
        0 <= k <= w.len(),
        all_digits(w),
    ensures
        0 <= digits_val(w.take(k)) <= digits_val(w),
    decreases w.len() - k,
{
    if k == w.len() {
        assert(w.take(k) =~= w);
        lemma_digits_nonneg(w);
    } else {
        assert(w.take(k + 1).drop_last() =~= w.take(k));
        assert(w.take(k + 1).last() == w[k]);
        lemma_digits_nonneg(w.take(k));
        lemma_digits_mono(w, k + 1);
    }
}

/// A digit string's value is never negative.
proof fn lemma_digits_nonneg(w: Seq<char>)
    requires
        all_digits(w),
    ensures
        digits_val(w) >= 0,
    decreases w.len(),
{
    if w.len() > 0 {
        assert(all_digits(w.drop_last()));
        lemma_digits_nonneg(w.drop_last());
    }
}

/// Whether every character from position `p` on is a decimal digit.
fn digits_from(w: &str, p: usize, n: usize) -> (b: bool)
    requires
        n == w@.len(),
        p <= n,
    ensures
        b == all_digits(w@.subrange(p as int, n as int)),
{
    let mut i = p;
    while i < n
        invariant
            p <= i <= n,
            n == w@.len(),
            forall|j: int| p <= j < i ==> is_digit(#[trigger] w@[j]),
        decreases n - i,
    {
        let c = w.get_char(i);
        if !(c >= '0' && c <= '9') {
            proof {
                assert(w@.subrange(p as int, n as int)[i - p] == w@[i as int]);
                assert(!all_digits(w@.subrange(p as int, n as int)));
            }
            return false;
        }
        i = i + 1;
    }
    proof {
        assert forall|j: int| 0 <= j < n - p
            implies is_digit(#[trigger] w@.subrange(p as int, n as int)[j]) by {
            assert(w@.subrange(p as int, n as int)[j] == w@[j + p]);
        }
    }
    true
}

/// Reads the digits of `w` from position `off` on as a base-ten value,
/// or nothing when that value exceeds the unsigned 64-bit range.
fn digits_value(w: &str, off: usize, n: usize) -> (r: Option<u64>)
    requires
        n == w@.len(),
        off <= n,
        all_digits(w@.subrange(off as int, n as int)),
    ensures
        match r {
            Some(v) => v as int == digits_val(w@.subrange(off as int, n as int)),
            None => digits_val(w@.subrange(off as int, n as int)) > u64::MAX,
        },
{
    let ghost part = w@.subrange(off as int, n as int);
    let mut acc: u64 = 0;
    let mut i = off;
    while i < n
        invariant
            off <= i <= n,
            n == w@.len(),
            part == w@.subrange(off as int, n as int),
            all_digits(part),
            acc as int == digits_val(part.take(i - off)),
        decreases n - i,
    {
        let c = w.get_char(i);
        proof {
            assert(part[i - off] == w@[i as int]);
            assert(is_digit(w@[i as int]));
        }
        let d = (c as u32 - 48) as u64;
        let acc10 = match acc.checked_mul(10) {
            Some(v) => v,
            None => {
                proof {
                    assert(part.take(i - off + 1).drop_last() =~= part.take(i - off));
                    assert(part.take(i - off + 1).last() == part[i - off]);
                    lemma_digits_nonneg(part.take(i - off + 1));
                    lemma_digits_mono(part, i - off + 1);
                }
                return None;
            },
        };
        let acc2 = match acc10.checked_add(d) {
            Some(v) => v,
            None => {
                proof {
                    assert(part.take(i - off + 1).drop_last() =~= part.take(i - off));
                    assert(part.take(i - off + 1).last() == part[i - off]);
                    lemma_digits_mono(part, i - off + 1);
                }
                return None;
            },
        };
        proof {
            assert(part.take(i - off + 1).drop_last() =~= part.take(i - off));
            assert(part.take(i - off + 1).last() == part[i - off]);
        }
        acc = acc2;
        i = i + 1;
    }
    proof {
        assert(part.take(n - off) =~= part);
    }
    Some(acc)
}

/// Turns one atom into its token: a signed number when its shape and
/// range allow, an identifier otherwise.
fn read_atom(w: &str) -> (r: Result<Token, ParseFault>)
    ensures
        match r {
            Ok(t) => atom_token(w@) == Some(t@),
            Err(_) => atom_token(w@) is None,
        },
{
    let n = w.unicode_len();
    if n > 0 && digits_from(w, 0, n) {
        proof {
            assert(w@.subrange(0, n as int) =~= w@);
        }
        match digits_value(w, 0, n) {
            Some(m) => {
                if m <= i64::MAX as u64 {
                    Ok(Token::Num(m as i64))
                } else {
                    Err(ParseFault::NumberOutOfRange)
                }
            },
            None => Err(ParseFault::NumberOutOfRange),
        }
    } else if n >= 2 && w.get_char(0) == '-' && digits_from(w, 1, n) {
        proof {
            assert(w@.subrange(1, n as int) =~= w@.drop_first());
        }
        match digits_value(w, 1, n) {
            Some(m) => {
                if m <= 9223372036854775807u64 {
                    Ok(Token::Num(-(m as i64)))
                } else if m == 9223372036854775808u64 {
                    Ok(Token::Num(i64::MIN))
                } else {
                    Err(ParseFault::NumberOutOfRange)
                }
            },
            None => Err(ParseFault::NumberOutOfRange),
        }
    } else {
        proof {
            assert(w@.subrange(0, n as int) =~= w@);
            if n >= 2 && w@[0] == '-' {
                assert(w@.subrange(1, n as int) =~= w@.drop_first());
            }
        }
        Ok(Token::Ident(w.to_owned()))
    }
}

/// Splits source text into its tokens, or reports the number literal
/// that does not fit.
pub fn tokenize(input: &str) -> (r: Result<Vec<Token>, ParseFault>)
    ensures
        match r {
            Ok(v) => tokens_of(input@) == Some(view_tokens(v@)),
            Err(_) => tokens_of(input@) is None,
        },
{
    let n = input.unicode_len();
    let mut out: Vec<Token> = Vec::new();
    let mut start: usize = 0;
    let mut i: usize = 0;
    proof {
        broadcast use lemma_view_tokens;

        assert(input@.subrange(0, 0) =~= Seq::<char>::empty());
        assert(view_tokens(out@) =~= Seq::<TokenT>::empty());
    }
    while i < n
        invariant
            start <= i <= n,
            n == input@.len(),
            tokens_of(input@) == tokenize_rec(
                input@,
                i as int,
                input@.subrange(start as int, i as int),
                view_tokens(out@),
            ),
        decreases n - i,
    {
        let c = input.get_char(i);
        let space = c == ' ' || c == '\n' || c == '\t' || c == '\r';
        let open = c == '(' || c == '[';
        let close = c == ')' || c == ']';
        if !(space || open || close) {
            proof {
                assert(input@.subrange(start as int, i + 1)
                    =~= input@.subrange(start as int, i as int).push(c));
            }
            i = i + 1;
        } else {
            if start < i {
                let word = input.substring_char(start, i);
                match read_atom(word) {
                    Ok(t) => {
                        let ghost acc0 = view_tokens(out@);
                        out.push(t);
                        proof {
                            broadcast use lemma_view_tokens;

                            assert(view_tokens(out@) =~= acc0.push(t@));
                        }
                    },
                    Err(f) => {
                        return Err(f);
                    },
                }
            }
            let ghost acc1 = view_tokens(out@);
            if open {
                out.push(Token::Open);
            } else if close {
                out.push(Token::Close);
            }
            proof {
                broadcast use lemma_view_tokens;

                if open {
                    assert(view_tokens(out@) =~= acc1.push(TokenT::Open));
                } else if close {
                    assert(view_tokens(out@) =~= acc1.push(TokenT::Close));
                }
                assert(input@.subrange(i + 1, i + 1) =~= Seq::<char>::empty());
            }
            i = i + 1;
            start = i;
        }
    }
    if start < n {
        let word = input.substring_char(start, n);
        match read_atom(word) {
            Ok(t) => {
                let ghost acc0 = view_tokens(out@);
                out.push(t);
                proof {
                    broadcast use lemma_view_tokens;

                    assert(view_tokens(out@) =~= acc0.push(t@));
                }
            },
            Err(f) => {
                return Err(f);
            },
        }
    }
    Ok(out)
}

/// Parses one s-expression starting at token `i`, returning it and the
/// position just past it.
fn parse_expr(toks: &Vec<Token>, i: usize) -> (r: Result<(SExp, usize), ParseFault>)
    ensures
        match r {
            Ok(p) => parse_at(view_tokens(toks@), i as int) == Some((p.0@, p.1 as int))
                && i < p.1 <= toks@.len(),
            Err(_) => parse_at(view_tokens(toks@), i as int) is None,
        },
    decreases toks@.len() - i, 0int,
{
    proof {
        broadcast use lemma_view_tokens;

    }
    if i >= toks.len() {
        return Err(ParseFault::Unbalanced);
    }
    match &toks[i] {
        Token::Num(v) => Ok((SExp::ConstNumber(*v), i + 1)),
        Token::Ident(s) => Ok((SExp::Ident(s.clone()), i + 1)),
        Token::Close => Err(ParseFault::Unbalanced),
        Token::Open => {
            match parse_seq(toks, i + 1) {
                Ok((items, j)) => {
                    if j < toks.len() {
                        let is_close_tok = match &toks[j] {
                            Token::Close => true,
                            _ => false,
                        };
                        if is_close_tok {
                            let e = SExp::List(items);
                            proof {
                                assert(e@ == Tree::List(view_trees(e->List_0@)));
                            }
                            Ok((e, j + 1))
                        } else {
                            Err(ParseFault::Unbalanced)
                        }
                    } else {
                        Err(ParseFault::Unbalanced)
                    }
                },
                Err(f) => Err(f),
            }
        },
    }
}

/// Parses list elements starting at token `i` until a closing bracket,
/// which is left unconsumed.
fn parse_seq(toks: &Vec<Token>, i: usize) -> (r: Result<(Vec<SExp>, usize), ParseFault>)
    ensures
        match r {
            Ok(p) => parse_items(view_tokens(toks@), i as int)
                == Some((view_trees(p.0@), p.1 as int)) && i <= p.1 <= toks@.len(),
            Err(_) => parse_items(view_tokens(toks@), i as int) is None,
        },
    decreases toks@.len() - i, 1int,
{
    proof {
        broadcast use lemma_view_tokens, lemma_view_trees;

    }
    if i >= toks.len() {
        return Err(ParseFault::Unbalanced);
    }
    let at_close = match &toks[i] {
        Token::Close => true,
        _ => false,
    };
    if at_close {
        let empty: Vec<SExp> = Vec::new();
        proof {
            assert(view_trees(empty@) =~= Seq::<Tree>::empty());
        }
        return Ok((empty, i));
    }
    match parse_expr(toks, i) {
        Ok((e, j)) => {
            match parse_seq(toks, j) {
                Ok((mut items, k)) => {
                    let ghost tail = view_trees(items@);
                    items.insert(0, e);
                    proof {
                        broadcast use lemma_view_trees;

                        assert(view_trees(items@) =~= seq![e@] + tail);
                    }
                    Ok((items, k))
                },
                Err(f) => Err(f),
            }
        },
        Err(f) => Err(f),
    }
}

/// Parses a whole text into one s-expression.
///
/// Succeeds exactly when the text tokenizes and holds exactly one
/// s-expression; the result is then that expression's tree.
pub fn parse(input: &str) -> (r: Result<SExp, ParseFault>)
    ensures
        match r {
            Ok(e) => parse_text(input@) == Some(e@),
            Err(_) => parse_text(input@) is None,
        },
{
    let toks = match tokenize(input) {
        Ok(v) => v,
        Err(f) => {
            return Err(f);
        },
    };
    proof {
        broadcast use lemma_view_tokens;

        assert(view_tokens(toks@).len() == toks@.len());
    }
    if toks.len() == 0 {
        return Err(ParseFault::Empty);
    }
    match parse_expr(&toks, 0) {
        Ok((e, j)) => {
            if j == toks.len() {
                proof {
                    broadcast use lemma_view_tokens;

                }
                Ok(e)
            } else {
                Err(ParseFault::TrailingText)
            }
        },
        Err(f) => Err(f),
    }
}

} // verus!
