//! The text form of programs.
//!
//! ```text
//! program    := expr*
//! expr       := assign ';' | if_stmt | while_stmt | "skip" ';'
//! assign     := var '=' poly
//! if_stmt    := "if" '(' pred ')' '{' program '}' ("else" '{' program '}')?
//! while_stmt := "while" '(' pred ')' '{' program '}'
//! pred       := poly ("==" | "!=") poly
//! ```
//!
//! White space may stand around every statement, bracket and operator.
use crate::poly_parse::{
    is_letter, poly_at, poly_x, skip_spaces, skip_ws, variable_at, word_end, Parsed, P, PV,
};
use vstd::prelude::*;
use vstd::string::*;

verus! {

/// The name of a variable.
#[derive(Debug, Clone, PartialEq, Eq)]
pub struct V(pub String);

/// The syntax tree of a guard: `p == 0` or `p != 0`.
#[derive(Debug, PartialEq, Eq)]
pub struct Pre {
    pub p: P,
    /// `true` for `==`, `false` for `!=`.
    pub eq: bool,
}

/// The syntax tree of a program.
#[derive(Debug, PartialEq, Eq)]
pub enum E {
    Ass { v: V, p: P },
    Skip,
    Sequence { es: Vec<E> },
    If { guard: Pre, the: Box<E>, els: Option<Box<E>> },
    While { guard: Pre, body: Box<E> },
}

/// What the syntax tree of a guard denotes.
pub struct PreV {
    pub p: PV,
    pub eq: bool,
}

/// What the syntax tree of a program denotes.
pub enum EV {
    Ass(Seq<char>, PV),
    Skip,
    Sequence(Seq<EV>),
    If(PreV, Box<EV>, Option<Box<EV>>),
    While(PreV, Box<EV>),
}

impl View for Pre {
    type V = PreV;

    open spec fn view(&self) -> PreV {
        PreV { p: self.p@, eq: self.eq }
    }
}

impl Clone for Pre {
    fn clone(&self) -> (r: Pre)
        ensures
            r@ == self@,
    {
        Pre { p: self.p.clone(), eq: self.eq }
    }
}

/// What a list of syntax trees denotes.
pub open spec fn views_of(es: Seq<E>) -> Seq<EV>
    decreases es, 1int,
{
    Seq::new(
        es.len(),
        |i: int|
            if 0 <= i < es.len() {
                e_view(es[i])
            } else {
                EV::Skip
            },
    )
}

pub open spec fn e_view(e: E) -> EV
    decreases e, 0int,
{
    match e {
        E::Ass { v, p } => EV::Ass(v.0@, p@),
        E::Skip => EV::Skip,
        E::Sequence { es } => EV::Sequence(views_of(es@)),
        E::If { guard, the, els } => EV::If(
            guard@,
            Box::new(e_view(*the)),
            match els {
                Some(b) => Some(Box::new(e_view(*b))),
                None => None,
            },
        ),
        E::While { guard, body } => EV::While(guard@, Box::new(e_view(*body))),
    }
}

impl View for E {
    type V = EV;

    open spec fn view(&self) -> EV {
        e_view(*self)
    }
}

impl Clone for E {
    fn clone(&self) -> (r: E)
        ensures
            r@ == self@,
        decreases self,
    {
        match self {
            E::Ass { v, p } => E::Ass { v: V(v.0.clone()), p: p.clone() },
            E::Skip => E::Skip,
            E::Sequence { es } => {
                let mut out: Vec<E> = Vec::new();
                let mut i: usize = 0;
                while i < es.len()
                    invariant
                        i <= es@.len(),
                        decreases_to!(self => es),
                        out@.len() == i,
                        forall|j: int| 0 <= j < i ==> (#[trigger] out@[j])@ == es@[j]@,
                    decreases es@.len() - i,
                {
                    proof {
                        assert(decreases_to!(es => es[i as int]));
                    }
                    out.push(es[i].clone());
                    i += 1;
                }
                let r = E::Sequence { es: out };
                proof {
                    assert(views_of(out@) =~= views_of(es@));
                }
                r
            },
            E::If { guard, the, els } => E::If {
                guard: guard.clone(),
                the: Box::new((**the).clone()),
                els: match els {
                    Some(b) => Some(Box::new((**b).clone())),
                    None => None,
                },
            },
            E::While { guard, body } => E::While {
                guard: guard.clone(),
                body: Box::new((**body).clone()),
            },
        }
    }
}

/// The place after the text `lit` where it stands at `pos`.
pub open spec fn lit_at(s: Seq<char>, pos: int, lit: Seq<char>) -> Option<int> {
    if 0 <= pos && pos + lit.len() <= s.len() && s.subrange(pos, pos + lit.len()) == lit {
        Some(pos + lit.len())
    } else {
        None
    }
}

/// The place after the text `lit` and the white space around it, where it
/// stands after white space at `pos`.
pub open spec fn token_at(s: Seq<char>, pos: int, lit: Seq<char>) -> Parsed<()> {
    let p1 = skip_ws(s, pos);
    match lit_at(s, p1, lit) {
        Some(p2) => Ok((skip_ws(s, p2), ())),
        None => Err(p1),
    }
}

/// A guard: two polynomials with `==` or `!=` between them; it denotes
/// their difference.
pub open spec fn pred_at(s: Seq<char>, pos: int) -> Parsed<PreV> {
    match poly_at(s, pos) {
        Err(e) => Err(e),
        Ok((p1, a)) => {
            let p2 = skip_ws(s, p1);
            if 0 <= p2 && p2 + 1 < s.len() && (s[p2] == '!' || s[p2] == '=') && s[p2 + 1] == '=' {
                let p3 = skip_ws(s, p2 + 2);
                match poly_at(s, p3) {
                    Err(e) => Err(e),
                    Ok((p4, b)) => Ok(
                        (p4, PreV { p: PV::Sub(Box::new(a), Box::new(b)), eq: s[p2] == '=' }),
                    ),
                }
            } else if 0 <= p2 < s.len() && (s[p2] == '!' || s[p2] == '=') {
                Err(p2 + 1)
            } else {
                Err(p2)
            }
        },
    }
}

/// The guard of a statement that begins with the word `word`: the word, a
/// guard in parentheses.
pub open spec fn cond_at(s: Seq<char>, pos: int, word: Seq<char>) -> Parsed<PreV> {
    match token_at(s, pos, word) {
        Err(e) => Err(e),
        Ok((p1, _)) => match token_at(s, p1, seq!['(']) {
            Err(e) => Err(e),
            Ok((p2, _)) => match pred_at(s, p2) {
                Err(e) => Err(e),
                Ok((p3, g)) => match token_at(s, p3, seq![')']) {
                    Err(e) => Err(e),
                    Ok((p4, _)) => Ok((p4, g)),
                },
            },
        },
    }
}

/// An assignment: a variable, `=`, a polynomial.
pub open spec fn assign_at(s: Seq<char>, pos: int) -> Parsed<EV> {
    let p1 = skip_ws(s, pos);
    match variable_at(s, p1) {
        Err(e) => Err(e),
        Ok((p2, PV::Var(name))) => {
            let p3 = skip_ws(s, p2);
            if 0 <= p3 < s.len() && s[p3] == '=' {
                let p4 = skip_ws(s, p3 + 1);
                match poly_at(s, p4) {
                    Err(e) => Err(e),
                    Ok((p5, p)) => Ok((skip_ws(s, p5), EV::Ass(name, p))),
                }
            } else {
                Err(p3)
            }
        },
        Ok(_) => Err(p1),
    }
}

/// The tree of a list of statements: `Skip` for none, the statement for
/// one, a sequence for more.
pub open spec fn tree_of(es: Seq<EV>) -> EV {
    if es.len() == 0 {
        EV::Skip
    } else if es.len() == 1 {
        es[0]
    } else {
        EV::Sequence(es)
    }
}

/// A program in braces.
pub open spec fn block_at(s: Seq<char>, pos: int) -> Parsed<EV>
    decreases s.len() - pos, 1int,
{
    if pos < 0 || pos > s.len() {
        Err(pos)
    } else {
        match token_at(s, pos, seq!['{']) {
            Err(e) => Err(e),
            Ok((p1, _)) => if p1 <= pos || p1 > s.len() {
                Err(pos)
            } else {
                let (p2, es) = stmts_at(s, p1);
                match token_at(s, p2, seq!['}']) {
                    Err(e) => Err(e),
                    Ok((p3, _)) => Ok((p3, tree_of(es))),
                }
            },
        }
    }
}

/// The branch after `else`, where there is one: the word and a program in
/// braces.
pub open spec fn else_at(s: Seq<char>, pos: int) -> Option<(int, EV)>
    decreases s.len() - pos, 0int,
{
    if pos < 0 || pos > s.len() {
        None
    } else {
        match token_at(s, pos, seq!['e', 'l', 's', 'e']) {
            Err(_) => None,
            Ok((p1, _)) => if p1 <= pos || p1 > s.len() {
                None
            } else {
                match block_at(s, p1) {
                    Err(_) => None,
                    Ok(r) => Some(r),
                }
            },
        }
    }
}

/// A conditional.
pub open spec fn if_at(s: Seq<char>, pos: int) -> Parsed<EV>
    decreases s.len() - pos, 2int,
{
    if pos < 0 || pos > s.len() {
        Err(pos)
    } else {
        match cond_at(s, pos, seq!['i', 'f']) {
            Err(e) => Err(e),
            Ok((p1, g)) => if p1 < pos || p1 > s.len() {
                Err(pos)
            } else {
                match block_at(s, p1) {
                    Err(e) => Err(e),
                    Ok((p2, the)) => if p2 < pos || p2 > s.len() {
                        Err(pos)
                    } else {
                        match else_at(s, p2) {
                            None => Ok((p2, EV::If(g, Box::new(the), None))),
                            Some((p3, els)) => Ok(
                                (p3, EV::If(g, Box::new(the), Some(Box::new(els)))),
                            ),
                        }
                    },
                }
            },
        }
    }
}

/// A loop.
pub open spec fn while_at(s: Seq<char>, pos: int) -> Parsed<EV>
    decreases s.len() - pos, 2int,
{
    if pos < 0 || pos > s.len() {
        Err(pos)
    } else {
        match cond_at(s, pos, seq!['w', 'h', 'i', 'l', 'e']) {
            Err(e) => Err(e),
            Ok((p1, g)) => if p1 < pos || p1 > s.len() {
                Err(pos)
            } else {
                match block_at(s, p1) {
                    Err(e) => Err(e),
                    Ok((p2, body)) => Ok((p2, EV::While(g, Box::new(body)))),
                }
            },
        }
    }
}

/// A statement: an assignment and `;`, a conditional, a loop, or `skip`
/// and `;`.
pub open spec fn expr_at(s: Seq<char>, pos: int) -> Parsed<EV>
    decreases s.len() - pos, 3int,
{
    let a = match assign_at(s, pos) {
        Err(e) => Err(e),
        Ok((p1, e)) => match lit_at(s, p1, seq![';']) {
            Some(p2) => Ok((p2, e)),
            None => Err(p1),
        },
    };
    match a {
        Ok(r) => Ok(r),
        Err(_) => match if_at(s, pos) {
            Ok(r) => Ok(r),
            Err(_) => match while_at(s, pos) {
                Ok(r) => Ok(r),
                Err(_) => match lit_at(s, pos, seq!['s', 'k', 'i', 'p']) {
                    None => Err(pos),
                    Some(p1) => match lit_at(s, p1, seq![';']) {
                        Some(p2) => Ok((p2, EV::Skip)),
                        None => Err(p1),
                    },
                },
            },
        },
    }
}

/// The statements from `pos` on, each with white space around it.
pub open spec fn stmts_at(s: Seq<char>, pos: int) -> (int, Seq<EV>)
    decreases s.len() - pos, 4int,
{
    if pos < 0 || pos > s.len() {
        (pos, Seq::empty())
    } else {
        let p1 = skip_ws(s, pos);
        if p1 < pos || p1 > s.len() {
            (pos, Seq::empty())
        } else {
            match expr_at(s, p1) {
                Err(_) => (pos, Seq::empty()),
                Ok((p2, e)) => {
                    let p3 = skip_ws(s, p2);
                    if p3 <= pos || p3 > s.len() {
                        (pos, Seq::empty())
                    } else {
                        let (p4, es) = stmts_at(s, p3);
                        (p4, seq![e] + es)
                    }
                },
            }
        }
    }
}

/// A program: statements.
pub open spec fn program_at(s: Seq<char>, pos: int) -> Parsed<EV> {
    let (p, es) = stmts_at(s, pos);
    Ok((p, tree_of(es)))
}

/// The rest `rest` of the input `input` begins at the place `pos`.
pub open spec fn rest_from(input: Seq<char>, rest: Seq<char>, pos: int) -> bool {
    0 <= pos <= input.len() && rest == input.skip(pos)
}

/// The place at which the rest `rest` of the input `input` begins.
pub open spec fn place(input: Seq<char>, rest: Seq<char>) -> int {
    input.len() - rest.len()
}

/// The rest of the input from a place on.
fn rest_at<'a>(input: &'a str, n: usize, pos: usize) -> (rest: &'a str)
    requires
        n == input@.len(),
        pos <= n,
    ensures
        rest_from(input@, rest@, pos as int),
        place(input@, rest@) == pos,
{
    let rest = input.substring_char(pos, n);
    assert(input@.subrange(pos as int, n as int) =~= input@.skip(pos as int));
    rest
}

/// The place after the text `lit` where it stands at `pos`.
fn lit_x(s: &str, n: usize, pos: usize, lit: &str) -> (out: Option<usize>)
    requires
        n == s@.len(),
        pos <= n,
    ensures
        out == match lit_at(s@, pos as int, lit@) {
            Some(q) => Some(q as usize),
            None => None,
        },
        out matches Some(q) ==> q == pos + lit@.len() && q <= n,
{
    let m = lit.unicode_len();
    if m > n - pos {
        return None;
    }
    let mut i: usize = 0;
    while i < m
        invariant
            i <= m,
            m == lit@.len(),
            n == s@.len(),
            pos + m <= n,
            forall|j: int| 0 <= j < i ==> s@[pos + j] == lit@[j],
        decreases m - i,
    {
        if s.get_char(pos + i) != lit.get_char(i) {
            proof {
                let sub = s@.subrange(pos as int, pos + m);
                assert(sub[i as int] == s@[pos + i]);
            }
            return None;
        }
        i += 1;
    }
    proof {
        assert(s@.subrange(pos as int, pos + m) =~= lit@);
    }
    Some(pos + m)
}

/// The text `lit` with white space around it.
fn token_x(s: &str, n: usize, pos: usize, lit: &str) -> (out: Result<usize, usize>)
    requires
        n == s@.len(),
        pos <= n,
        lit@.len() > 0,
    ensures
        out matches Ok(q) ==> token_at(s@, pos as int, lit@) == Ok::<(int, ()), int>(
            (q as int, ()),
        ) && pos < q <= n,
        out matches Err(e) ==> token_at(s@, pos as int, lit@) == Err::<(int, ()), int>(e as int)
            && pos <= e <= n,
{
    let p1 = skip_spaces(s, n, pos);
    match lit_x(s, n, p1, lit) {
        Some(p2) => Ok(skip_spaces(s, n, p2)),
        None => Err(p1),
    }
}

/// A guard at the place `pos`.
fn pred_x(s: &str, n: usize, pos: usize) -> (out: Result<(usize, Pre), usize>)
    requires
        n == s@.len(),
        pos <= n,
    ensures
        out matches Ok((q, g)) ==> pred_at(s@, pos as int) == Ok::<(int, PreV), int>(
            (q as int, g@),
        ) && pos < q <= n,
        out matches Err(e) ==> pred_at(s@, pos as int) == Err::<(int, PreV), int>(e as int) && pos
            <= e <= n,
{
    let (p1, a) = match poly_x(s, n, pos) {
        Err(e) => {
            return Err(e);
        },
        Ok(r) => r,
    };
    let p2 = skip_spaces(s, n, p1);
    if p2 >= n {
        return Err(p2);
    }
    let c = s.get_char(p2);
    if c != '!' && c != '=' {
        return Err(p2);
    }
    if p2 + 1 >= n || s.get_char(p2 + 1) != '=' {
        return Err(p2 + 1);
    }
    let p3 = skip_spaces(s, n, p2 + 2);
    match poly_x(s, n, p3) {
        Err(e) => Err(e),
        Ok((p4, b)) => Ok(
            (p4, Pre { p: P::Sub { exp1: Box::new(a), exp2: Box::new(b) }, eq: c == '=' }),
        ),
    }
}

/// The guard of a statement that begins with the word `word`.
fn cond_x(s: &str, n: usize, pos: usize, word: &str) -> (out: Result<(usize, Pre), usize>)
    requires
        n == s@.len(),
        pos <= n,
        word@.len() > 0,
    ensures
        out matches Ok((q, g)) ==> cond_at(s@, pos as int, word@) == Ok::<(int, PreV), int>(
            (q as int, g@),
        ) && pos < q <= n,
        out matches Err(e) ==> cond_at(s@, pos as int, word@) == Err::<(int, PreV), int>(e as int)
            && pos <= e <= n,
{
    proof {
        reveal_strlit("(");
        reveal_strlit(")");
        assert("("@ =~= seq!['(']);
        assert(")"@ =~= seq![')']);
    }
    let p1 = match token_x(s, n, pos, word) {
        Err(e) => {
            return Err(e);
        },
        Ok(q) => q,
    };
    let p2 = match token_x(s, n, p1, "(") {
        Err(e) => {
            return Err(e);
        },
        Ok(q) => q,
    };
    let (p3, g) = match pred_x(s, n, p2) {
        Err(e) => {
            return Err(e);
        },
        Ok(r) => r,
    };
    match token_x(s, n, p3, ")") {
        Err(e) => Err(e),
        Ok(p4) => Ok((p4, g)),
    }
}

/// An assignment at the place `pos`.
fn assign_x(s: &str, n: usize, pos: usize) -> (out: Result<(usize, E), usize>)
    requires
        n == s@.len(),
        pos <= n,
    ensures
        out matches Ok((q, e)) ==> assign_at(s@, pos as int) == Ok::<(int, EV), int>(
            (q as int, e@),
        ) && pos < q <= n,
        out matches Err(e) ==> assign_at(s@, pos as int) == Err::<(int, EV), int>(e as int) && pos
            <= e <= n,
{
    let p1 = skip_spaces(s, n, pos);
    if !(p1 < n && crate::poly_parse::letter_char(s.get_char(p1))) {
        return Err(p1);
    }
    let p2 = crate::poly_parse::word_stop(s, n, p1 + 1);
    let name = String::from_str(s.substring_char(p1, p2));
    let p3 = skip_spaces(s, n, p2);
    if !(p3 < n && s.get_char(p3) == '=') {
        return Err(p3);
    }
    let p4 = skip_spaces(s, n, p3 + 1);
    match poly_x(s, n, p4) {
        Err(e) => Err(e),
        Ok((p5, p)) => Ok((skip_spaces(s, n, p5), E::Ass { v: V(name), p })),
    }
}

/// The tree of a list of statements.
fn tree_x(mut es: Vec<E>) -> (e: E)
    ensures
        e@ == tree_of(views_of(es@)),
{
    if es.len() == 0 {
        E::Skip
    } else if es.len() == 1 {
        let ghost v = views_of(es@);
        let ghost old_es = es@;
        let e = es.pop().unwrap();
        proof {
            assert(v[0] == e_view(old_es[0]));
        }
        e
    } else {
        E::Sequence { es }
    }
}

/// A program in braces at the place `pos`.
fn block_x(s: &str, n: usize, pos: usize) -> (out: Result<(usize, E), usize>)
    requires
        n == s@.len(),
        pos <= n,
    ensures
        out matches Ok((q, e)) ==> block_at(s@, pos as int) == Ok::<(int, EV), int>((q as int, e@))
            && pos < q <= n,
        out matches Err(e) ==> block_at(s@, pos as int) == Err::<(int, EV), int>(e as int) && pos
            <= e <= n,
    decreases n - pos, 1int,
{
    proof {
        reveal_strlit("{");
        reveal_strlit("}");
        assert("{"@ =~= seq!['{']);
        assert("}"@ =~= seq!['}']);
    }
    let p1 = match token_x(s, n, pos, "{") {
        Err(e) => {
            return Err(e);
        },
        Ok(q) => q,
    };
    let mut es: Vec<E> = Vec::new();
    let p2 = stmts_x(s, n, p1, &mut es);
    proof {
        assert(views_of(Seq::<E>::empty()) =~= Seq::<EV>::empty());
        assert(Seq::<EV>::empty() + stmts_at(s@, p1 as int).1 =~= stmts_at(s@, p1 as int).1);
    }
    match token_x(s, n, p2, "}") {
        Err(e) => Err(e),
        Ok(p3) => Ok((p3, tree_x(es))),
    }
}

/// The branch after `else` at the place `pos`.
fn else_x(s: &str, n: usize, pos: usize) -> (out: Option<(usize, E)>)
    requires
        n == s@.len(),
        pos <= n,
    ensures
        out matches Some((q, e)) ==> else_at(s@, pos as int) == Some((q as int, e@)) && pos < q
            <= n,
        out is None ==> else_at(s@, pos as int) is None,
    decreases n - pos, 0int,
{
    proof {
        reveal_strlit("else");
        assert("else"@ =~= seq!['e', 'l', 's', 'e']);
    }
    match token_x(s, n, pos, "else") {
        Err(_) => None,
        Ok(p1) => match block_x(s, n, p1) {
            Err(_) => None,
            Ok(r) => Some(r),
        },
    }
}

/// A conditional at the place `pos`.
fn if_x(s: &str, n: usize, pos: usize) -> (out: Result<(usize, E), usize>)
    requires
        n == s@.len(),
        pos <= n,
    ensures
        out matches Ok((q, e)) ==> if_at(s@, pos as int) == Ok::<(int, EV), int>((q as int, e@))
            && pos < q <= n,
        out matches Err(e) ==> if_at(s@, pos as int) == Err::<(int, EV), int>(e as int) && pos
            <= e <= n,
    decreases n - pos, 2int,
{
    proof {
        reveal_strlit("if");
        assert("if"@ =~= seq!['i', 'f']);
    }
    let (p1, g) = match cond_x(s, n, pos, "if") {
        Err(e) => {
            return Err(e);
        },
        Ok(r) => r,
    };
    let (p2, the) = match block_x(s, n, p1) {
        Err(e) => {
            return Err(e);
        },
        Ok(r) => r,
    };
    match else_x(s, n, p2) {
        None => Ok((p2, E::If { guard: g, the: Box::new(the), els: None })),
        Some((p3, els)) => Ok(
            (p3, E::If { guard: g, the: Box::new(the), els: Some(Box::new(els)) }),
        ),
    }
}

/// A loop at the place `pos`.
fn while_x(s: &str, n: usize, pos: usize) -> (out: Result<(usize, E), usize>)
    requires
        n == s@.len(),
        pos <= n,
    ensures
        out matches Ok((q, e)) ==> while_at(s@, pos as int) == Ok::<(int, EV), int>((q as int, e@))
            && pos < q <= n,
        out matches Err(e) ==> while_at(s@, pos as int) == Err::<(int, EV), int>(e as int) && pos
            <= e <= n,
    decreases n - pos, 2int,
{
    proof {
        reveal_strlit("while");
        assert("while"@ =~= seq!['w', 'h', 'i', 'l', 'e']);
    }
    let (p1, g) = match cond_x(s, n, pos, "while") {
        Err(e) => {
            return Err(e);
        },
        Ok(r) => r,
    };
    match block_x(s, n, p1) {
        Err(e) => Err(e),
        Ok((p2, body)) => Ok((p2, E::While { guard: g, body: Box::new(body) })),
    }
}

/// The statement `skip;` at the place `pos`.
fn skip_x(s: &str, n: usize, pos: usize) -> (out: Result<(usize, E), usize>)
    requires
        n == s@.len(),
        pos <= n,
    ensures
        out matches Ok((q, e)) ==> e@ == EV::Skip && lit_at(s@, pos as int, seq!['s', 'k', 'i', 'p'])
            is Some && lit_at(s@, pos + 4, seq![';']) == Some(q as int) && q == pos + 5,
        out matches Err(e) ==> (lit_at(s@, pos as int, seq!['s', 'k', 'i', 'p']) is None && e
            == pos) || (lit_at(s@, pos as int, seq!['s', 'k', 'i', 'p']) is Some && lit_at(
            s@,
            pos + 4,
            seq![';'],
        ) is None && e == pos + 4),
{
    proof {
        reveal_strlit("skip");
        reveal_strlit(";");
        assert("skip"@ =~= seq!['s', 'k', 'i', 'p']);
        assert(";"@ =~= seq![';']);
    }
    match lit_x(s, n, pos, "skip") {
        None => Err(pos),
        Some(p1) => match lit_x(s, n, p1, ";") {
            None => Err(p1),
            Some(p2) => Ok((p2, E::Skip)),
        },
    }
}

/// A statement at the place `pos`.
fn expr_x(s: &str, n: usize, pos: usize) -> (out: Result<(usize, E), usize>)
    requires
        n == s@.len(),
        pos <= n,
    ensures
        out matches Ok((q, e)) ==> expr_at(s@, pos as int) == Ok::<(int, EV), int>((q as int, e@))
            && pos < q <= n,
        out matches Err(e) ==> expr_at(s@, pos as int) == Err::<(int, EV), int>(e as int) && pos
            <= e <= n,
    decreases n - pos, 3int,
{
    proof {
        reveal_strlit(";");
        assert(";"@ =~= seq![';']);
    }
    match assign_x(s, n, pos) {
        Ok((p1, e)) => match lit_x(s, n, p1, ";") {
            Some(p2) => {
                return Ok((p2, e));
            },
            None => {},
        },
        Err(_) => {},
    }
    match if_x(s, n, pos) {
        Ok(r) => {
            return Ok(r);
        },
        Err(_) => {},
    }
    match while_x(s, n, pos) {
        Ok(r) => {
            return Ok(r);
        },
        Err(_) => {},
    }
    skip_x(s, n, pos)
}

/// The statements at the place `pos`, gathered in `es`.
fn stmts_x(s: &str, n: usize, pos: usize, es: &mut Vec<E>) -> (q: usize)
    requires
        n == s@.len(),
        pos <= n,
    ensures
        q == stmts_at(s@, pos as int).0,
        views_of(final(es)@) == views_of(old(es)@) + stmts_at(s@, pos as int).1,
        pos <= q <= n,
    decreases n - pos, 4int,
{
    let ghost before = views_of(es@);
    let p1 = skip_spaces(s, n, pos);
    match expr_x(s, n, p1) {
        Err(_) => {
            proof {
                assert(before + Seq::<EV>::empty() =~= before);
            }
            pos
        },
        Ok((p2, e)) => {
            let p3 = skip_spaces(s, n, p2);
            let ghost ev = e@;
            es.push(e);
            let ghost mid = views_of(es@);
            let q = stmts_x(s, n, p3, es);
            proof {
                assert(mid =~= before + seq![ev]);
                let tail = stmts_at(s@, p3 as int).1;
                assert((before + seq![ev]) + tail =~= before + (seq![ev] + tail));
            }
            q
        },
    }
}

/// Reads a variable: a letter, then letters and digits.
pub fn var<'a>(input: &'a str) -> (out: Result<(&'a str, V), &'a str>)
    ensures
        out matches Ok((rest, v)) ==> input@.len() > 0 && is_letter(input@[0]) && rest_from(
            input@,
            rest@,
            word_end(input@, 1),
        ) && v.0@ == input@.subrange(0, word_end(input@, 1)),
        out matches Err(rest) ==> !(input@.len() > 0 && is_letter(input@[0])) && rest@ == input@,
{
    let n = input.unicode_len();
    if n > 0 && crate::poly_parse::letter_char(input.get_char(0)) {
        let e = crate::poly_parse::word_stop(input, n, 1);
        let name = String::from_str(input.substring_char(0, e));
        Ok((rest_at(input, n, e), V(name)))
    } else {
        let rest = rest_at(input, n, 0);
        assert(input@.skip(0) =~= input@);
        Err(rest)
    }
}

/// Reads an assignment.
pub fn assign<'a>(input: &'a str) -> (out: Result<(&'a str, E), &'a str>)
    ensures
        out matches Ok((rest, e)) ==> rest_from(input@, rest@, place(input@, rest@)) && assign_at(input@, 0)
            == Ok::<(int, EV), int>((place(input@, rest@), e@)),
        out matches Err(rest) ==> rest_from(input@, rest@, place(input@, rest@)) && assign_at(input@, 0)
            == Err::<(int, EV), int>(place(input@, rest@)),
{
    let n = input.unicode_len();
    match assign_x(input, n, 0) {
        Ok((q, e)) => {
            let rest = rest_at(input, n, q);
            Ok((rest, e))
        },
        Err(q) => {
            let rest = rest_at(input, n, q);
            Err(rest)
        },
    }
}

/// Reads a guard.
pub fn pred<'a>(input: &'a str) -> (out: Result<(&'a str, Pre), &'a str>)
    ensures
        out matches Ok((rest, g)) ==> rest_from(input@, rest@, place(input@, rest@)) && pred_at(input@, 0)
            == Ok::<(int, PreV), int>((place(input@, rest@), g@)),
        out matches Err(rest) ==> rest_from(input@, rest@, place(input@, rest@)) && pred_at(input@, 0)
            == Err::<(int, PreV), int>(place(input@, rest@)),
{
    let n = input.unicode_len();
    match pred_x(input, n, 0) {
        Ok((q, g)) => {
            let rest = rest_at(input, n, q);
            Ok((rest, g))
        },
        Err(q) => {
            let rest = rest_at(input, n, q);
            Err(rest)
        },
    }
}

/// Reads the guard of a conditional: `if`, then a guard in parentheses.
pub fn if_cnd<'a>(input: &'a str) -> (out: Result<(&'a str, Pre), &'a str>)
    ensures
        out matches Ok((rest, g)) ==> rest_from(input@, rest@, place(input@, rest@)) && cond_at(
            input@,
            0,
            seq!['i', 'f'],
        ) == Ok::<(int, PreV), int>((place(input@, rest@), g@)),
        out matches Err(rest) ==> rest_from(input@, rest@, place(input@, rest@)) && cond_at(
            input@,
            0,
            seq!['i', 'f'],
        ) == Err::<(int, PreV), int>(place(input@, rest@)),
{
    proof {
        reveal_strlit("if");
        assert("if"@ =~= seq!['i', 'f']);
    }
    let n = input.unicode_len();
    match cond_x(input, n, 0, "if") {
        Ok((q, g)) => {
            let rest = rest_at(input, n, q);
            Ok((rest, g))
        },
        Err(q) => {
            let rest = rest_at(input, n, q);
            Err(rest)
        },
    }
}

/// Reads the guard of a loop: `while`, then a guard in parentheses.
pub fn while_cnd<'a>(input: &'a str) -> (out: Result<(&'a str, Pre), &'a str>)
    ensures
        out matches Ok((rest, g)) ==> rest_from(input@, rest@, place(input@, rest@)) && cond_at(
            input@,
            0,
            seq!['w', 'h', 'i', 'l', 'e'],
        ) == Ok::<(int, PreV), int>((place(input@, rest@), g@)),
        out matches Err(rest) ==> rest_from(input@, rest@, place(input@, rest@)) && cond_at(
            input@,
            0,
            seq!['w', 'h', 'i', 'l', 'e'],
        ) == Err::<(int, PreV), int>(place(input@, rest@)),
{
    proof {
        reveal_strlit("while");
        assert("while"@ =~= seq!['w', 'h', 'i', 'l', 'e']);
    }
    let n = input.unicode_len();
    match cond_x(input, n, 0, "while") {
        Ok((q, g)) => {
            let rest = rest_at(input, n, q);
            Ok((rest, g))
        },
        Err(q) => {
            let rest = rest_at(input, n, q);
            Err(rest)
        },
    }
}

/// What a parser of programs returns for its outcome at the start of
/// `input`.
pub open spec fn e_outcome<'a>(
    input: Seq<char>,
    spec_out: Parsed<EV>,
    out: Result<(&'a str, E), &'a str>,
) -> bool {
    match out {
        Ok((rest, e)) => rest_from(input, rest@, place(input, rest@)) && spec_out == Ok::<
            (int, EV),
            int,
        >((place(input, rest@), e@)),
        Err(rest) => rest_from(input, rest@, place(input, rest@)) && spec_out == Err::<
            (int, EV),
            int,
        >(place(input, rest@)),
    }
}

fn e_deliver<'a>(input: &'a str, n: usize, r: Result<(usize, E), usize>) -> (out: Result<
    (&'a str, E),
    &'a str,
>)
    requires
        n == input@.len(),
        r matches Ok((q, _)) ==> q <= n,
        r matches Err(e) ==> e <= n,
    ensures
        e_outcome(
            input@,
            match r {
                Ok((q, e)) => Ok::<(int, EV), int>((q as int, e@)),
                Err(e) => Err::<(int, EV), int>(e as int),
            },
            out,
        ),
{
    match r {
        Ok((q, e)) => {
            let rest = rest_at(input, n, q);
            Ok((rest, e))
        },
        Err(q) => {
            let rest = rest_at(input, n, q);
            Err(rest)
        },
    }
}

/// Reads a program in braces.
pub fn nested_program<'a>(input: &'a str) -> (out: Result<(&'a str, E), &'a str>)
    ensures
        e_outcome(input@, block_at(input@, 0), out),
{
    let n = input.unicode_len();
    e_deliver(input, n, block_x(input, n, 0))
}

/// Reads a conditional.
pub fn if_stmt<'a>(input: &'a str) -> (out: Result<(&'a str, E), &'a str>)
    ensures
        e_outcome(input@, if_at(input@, 0), out),
{
    let n = input.unicode_len();
    e_deliver(input, n, if_x(input, n, 0))
}

/// Reads a loop.
pub fn while_stmt<'a>(input: &'a str) -> (out: Result<(&'a str, E), &'a str>)
    ensures
        e_outcome(input@, while_at(input@, 0), out),
{
    let n = input.unicode_len();
    e_deliver(input, n, while_x(input, n, 0))
}

/// Reads a statement.
pub fn expr<'a>(input: &'a str) -> (out: Result<(&'a str, E), &'a str>)
    ensures
        e_outcome(input@, expr_at(input@, 0), out),
{
    let n = input.unicode_len();
    e_deliver(input, n, expr_x(input, n, 0))
}

/// Reads a program: statements up to the first place at which no statement
/// begins. A program never fails: where no statement can be read, it is
/// `Skip` and the rest is the whole input.
pub fn program<'a>(input: &'a str) -> (out: Result<(&'a str, E), &'a str>)
    ensures
        out is Ok,
        e_outcome(input@, program_at(input@, 0), out),
{
    let n = input.unicode_len();
    let mut es: Vec<E> = Vec::new();
    let q = stmts_x(input, n, 0, &mut es);
    proof {
        assert(views_of(Seq::<E>::empty()) =~= Seq::<EV>::empty());
        assert(Seq::<EV>::empty() + stmts_at(input@, 0).1 =~= stmts_at(input@, 0).1);
    }
    e_deliver(input, n, Ok((q, tree_x(es))))
}

/// Reads the word `skip`.
pub fn skip<'a>(input: &'a str) -> (out: Result<(&'a str, E), &'a str>)
    ensures
        out matches Ok((rest, e)) ==> e@ == EV::Skip && lit_at(input@, 0, seq!['s', 'k', 'i', 'p'])
            == Some(4int) && rest_from(input@, rest@, 4),
        out matches Err(rest) ==> lit_at(input@, 0, seq!['s', 'k', 'i', 'p']) is None && rest@
            == input@,
{
    proof {
        reveal_strlit("skip");
        assert("skip"@ =~= seq!['s', 'k', 'i', 'p']);
    }
    let n = input.unicode_len();
    match lit_x(input, n, 0, "skip") {
        Some(q) => Ok((rest_at(input, n, q), E::Skip)),
        None => {
            let rest = rest_at(input, n, 0);
            assert(input@.skip(0) =~= input@);
            Err(rest)
        },
    }
}

} // verus!
