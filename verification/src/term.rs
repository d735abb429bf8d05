//! Terms: the nodes of an arithmetic expression tree.
use vstd::multiset::Multiset;
use vstd::prelude::*;

verus! {

/// The four basic arithmetic operations.
#[derive(Debug, Clone, Copy, PartialEq, Eq, Structural)]
pub enum Operator {
    Addition,
    Subtraction,
    Multiplication,
    Division,
}

/// An operator together with its left and right operand.
pub type Expr = (Operator, Box<Term>, Box<Term>);

/// A number together with the expression that produced it.
#[derive(Debug)]
pub struct Term {
    /// The expression this term was computed from; `None` for a starting number.
    pub expression: Option<Expr>,
    /// The value of the term.
    pub value: usize,
}

impl Operator {
    /// Whether the rules allow the operator on `a` and `b`, in this order:
    /// a difference must be positive and a quotient must be exact.
    pub open spec fn admits(self, a: int, b: int) -> bool {
        match self {
            Operator::Addition => true,
            Operator::Subtraction => a > b,
            Operator::Multiplication => true,
            Operator::Division => b != 0 && a % b == 0,
        }
    }

    /// The result of the operator on `a` and `b`.
    pub open spec fn apply(self, a: int, b: int) -> int {
        match self {
            Operator::Addition => a + b,
            Operator::Subtraction => a - b,
            Operator::Multiplication => a * b,
            Operator::Division => a / b,
        }
    }

    /// Applies the operator to two positive numbers, if the rules allow it.
    /// The result must fit in `usize`.
    pub fn compute(self, x: usize, y: usize) -> (r: Option<usize>)
        requires
            x >= 1,
            y >= 1,
            self.admits(x as int, y as int) ==> self.apply(x as int, y as int) <= usize::MAX,
        ensures
            r is Some <==> self.admits(x as int, y as int),
            r matches Some(v) ==> v == self.apply(x as int, y as int) && v >= 1,
    {
        match self {
            Operator::Addition => Some(x + y),
            Operator::Subtraction => {
                if x <= y {
                    None
                } else {
                    Some(x - y)
                }
            },
            Operator::Multiplication => {
                assert(x * y >= 1) by (nonlinear_arith)
                    requires
                        x >= 1,
                        y >= 1,
                ;
                Some(x * y)
            },
            Operator::Division => {
                if x % y != 0 {
                    None
                } else {
                    assert(x / y >= 1) by (nonlinear_arith)
                        requires
                            x >= 1,
                            y >= 1,
                            x % y == 0,
                    ;
                    Some(x / y)
                }
            },
        }
    }

    /// The character the operator is written with.
    pub open spec fn symbol(self) -> char {
        match self {
            Operator::Addition => '+',
            Operator::Subtraction => '-',
            Operator::Multiplication => '*',
            Operator::Division => '/',
        }
    }
}

impl Term {
    /// The term that stands for a starting number.
    pub open spec fn atom(value: usize) -> Term {
        Term { expression: None, value }
    }

    /// The term that applies `op` to `a` and `b`.
    pub open spec fn derived(op: Operator, a: Term, b: Term) -> Term {
        Term {
            expression: Some((op, Box::new(a), Box::new(b))),
            value: op.apply(a.value as int, b.value as int) as usize,
        }
    }

    /// The value of the expression tree, computed from its leaves alone.
    pub open spec fn eval(&self) -> int
        decreases self,
    {
        match self.expression {
            None => self.value as int,
            Some((op, a, b)) => op.apply(a.eval(), b.eval()),
        }
    }

    /// Every node of the tree, the root included, evaluates to a positive
    /// integer.
    pub open spec fn positive_throughout(&self) -> bool
        decreases self,
    {
        &&& self.eval() > 0
        &&& match self.expression {
            None => true,
            Some((_, a, b)) => a.positive_throughout() && b.positive_throughout(),
        }
    }

    /// At every node the left operand's value is at least the right one's.
    pub open spec fn ordered(&self) -> bool
        decreases self,
    {
        match self.expression {
            None => true,
            Some((_, a, b)) => a.value >= b.value && a.ordered() && b.ordered(),
        }
    }

    /// The term is one the rules allow: its value is positive, and if it is
    /// derived, its operands are well formed, the larger one stands on the
    /// left, the operator is allowed on them and yields the stored value.
    pub open spec fn well_formed(&self) -> bool
        decreases self,
    {
        &&& self.value > 0
        &&& match self.expression {
            None => true,
            Some((op, a, b)) => {
                &&& a.well_formed()
                &&& b.well_formed()
                &&& a.value >= b.value
                &&& op.admits(a.value as int, b.value as int)
                &&& self.value == op.apply(a.value as int, b.value as int)
            },
        }
    }

    /// The starting numbers that the term is made of, each as a term and as
    /// often as the tree holds it.
    pub open spec fn leaves(&self) -> Multiset<Term>
        decreases self,
    {
        match self.expression {
            None => Multiset::singleton(*self),
            Some((_, a, b)) => a.leaves().add(b.leaves()),
        }
    }

    /// The starting numbers that the term is made of, each as often as the
    /// tree holds it.
    pub open spec fn numbers(&self) -> Multiset<usize>
        decreases self,
    {
        match self.expression {
            None => Multiset::singleton(self.value),
            Some((_, a, b)) => a.numbers().add(b.numbers()),
        }
    }

    /// The leaves of a term are the starting terms of its numbers.
    pub proof fn lemma_leaves_are_numbers(&self, leaf: Term)
        ensures
            leaf.expression is None ==> self.leaves().count(leaf) == self.numbers().count(
                leaf.value,
            ),
            leaf.expression is Some ==> self.leaves().count(leaf) == 0,
        decreases self,
    {
        match self.expression {
            None => {
                if leaf.expression is None {
                    assert(leaf == *self <==> leaf.value == self.value);
                }
            },
            Some((_, a, b)) => {
                a.lemma_leaves_are_numbers(leaf);
                b.lemma_leaves_are_numbers(leaf);
            },
        }
    }

    /// Two terms are equal exactly if their values are equal and either both
    /// are starting numbers, or both are derived with the same operator and
    /// their operands are equal, left to left and right to right.
    pub proof fn lemma_equality_is_structural(&self, other: &Term)
        ensures
            (*self == *other) <==> (self.value == other.value && match (
                self.expression,
                other.expression,
            ) {
                (None, None) => true,
                (Some((op1, a1, b1)), Some((op2, a2, b2))) => op1 == op2 && *a1 == *a2 && *b1
                    == *b2,
                _ => false,
            }),
    {
    }

    /// A well-formed term stores at every node what its tree evaluates to.
    pub proof fn lemma_well_formed_evaluates(&self)
        requires
            self.well_formed(),
        ensures
            self.eval() == self.value,
            self.positive_throughout(),
            self.ordered(),
        decreases self,
    {
        match self.expression {
            None => {},
            Some((op, a, b)) => {
                a.lemma_well_formed_evaluates();
                b.lemma_well_formed_evaluates();
            },
        }
    }

    /// Makes the term for a starting number.
    pub fn atomic(value: usize) -> (t: Term)
        ensures
            t == Term::atom(value),
    {
        Term { expression: None, value }
    }
}

/// The character of a decimal digit.
pub open spec fn digit(d: int) -> char {
    if d == 0 {
        '0'
    } else if d == 1 {
        '1'
    } else if d == 2 {
        '2'
    } else if d == 3 {
        '3'
    } else if d == 4 {
        '4'
    } else if d == 5 {
        '5'
    } else if d == 6 {
        '6'
    } else if d == 7 {
        '7'
    } else if d == 8 {
        '8'
    } else {
        '9'
    }
}

/// A number written in base ten, without leading zeros.
pub open spec fn decimal(n: nat) -> Seq<char>
    decreases n,
{
    if n < 10 {
        seq![digit(n as int)]
    } else {
        decimal(n / 10).push(digit((n % 10) as int))
    }
}

/// The text of one decimal digit.
fn digit_text(d: usize) -> (s: &'static str)
    requires
        d < 10,
    ensures
        s@ == seq![digit(d as int)],
{
    proof {
        reveal_strlit("0");
        reveal_strlit("1");
        reveal_strlit("2");
        reveal_strlit("3");
        reveal_strlit("4");
        reveal_strlit("5");
        reveal_strlit("6");
        reveal_strlit("7");
        reveal_strlit("8");
        reveal_strlit("9");
    }
    let s = if d == 0 {
        "0"
    } else if d == 1 {
        "1"
    } else if d == 2 {
        "2"
    } else if d == 3 {
        "3"
    } else if d == 4 {
        "4"
    } else if d == 5 {
        "5"
    } else if d == 6 {
        "6"
    } else if d == 7 {
        "7"
    } else if d == 8 {
        "8"
    } else {
        "9"
    };
    assert(s@ =~= seq![digit(d as int)]);
    s
}

/// Appends a number in base ten.
fn append_decimal(n: usize, out: &mut String)
    ensures
        final(out)@ == old(out)@ + decimal(n as nat),
    decreases n,
{
    if n >= 10 {
        append_decimal(n / 10, out);
    }
    out.append(digit_text(n % 10));
    assert(out@ =~= old(out)@ + decimal(n as nat));
}

impl Operator {
    /// The operator as it stands between its operands.
    fn infix(self) -> (s: &'static str)
        ensures
            s@ == seq![' ', self.symbol(), ' '],
    {
        proof {
            reveal_strlit(" + ");
            reveal_strlit(" - ");
            reveal_strlit(" * ");
            reveal_strlit(" / ");
        }
        let s = match self {
            Operator::Addition => " + ",
            Operator::Subtraction => " - ",
            Operator::Multiplication => " * ",
            Operator::Division => " / ",
        };
        assert(s@ =~= seq![' ', self.symbol(), ' ']);
        s
    }
}

impl Term {
    /// The term as text: a starting number in base ten, a derived term as
    /// `(left OP right)` with both operands written the same way.
    pub open spec fn rendering(&self) -> Seq<char>
        decreases self,
    {
        match self.expression {
            None => decimal(self.value as nat),
            Some((op, a, b)) => seq!['('] + a.rendering() + seq![' ', op.symbol(), ' ']
                + b.rendering() + seq![')'],
        }
    }

    /// Appends the term as text.
    fn render_into(&self, out: &mut String)
        ensures
            final(out)@ == old(out)@ + self.rendering(),
        decreases self,
    {
        match &self.expression {
            None => {
                append_decimal(self.value, out);
            },
            Some((op, a, b)) => {
                proof {
                    reveal_strlit("(");
                    reveal_strlit(")");
                }
                out.append("(");
                (&**a).render_into(out);
                out.append(op.infix());
                (&**b).render_into(out);
                out.append(")");
                assert(out@ =~= old(out)@ + self.rendering());
            },
        }
    }

    /// Writes the term out as a fully parenthesised expression.
    pub fn render(&self) -> (s: String)
        ensures
            s@ == self.rendering(),
    {
        let mut s = String::new();
        self.render_into(&mut s);
        assert(s@ =~= self.rendering());
        s
    }
}

impl Clone for Term {
    /// A copy of the whole tree.
    fn clone(&self) -> (res: Term)
        ensures
            res == *self,
        decreases self,
    {
        match &self.expression {
            None => Term { expression: None, value: self.value },
            Some((op, a, b)) => {
                let left: Term = (&**a).clone();
                let right: Term = (&**b).clone();
                Term { expression: Some((*op, Box::new(left), Box::new(right))), value: self.value }
            },
        }
    }
}

impl PartialEq for Term {
    /// Structural equality: equal values, and either both terms are starting
    /// numbers or both apply the same operator to operands that are equal in
    /// the same positions. Operands are not compared crosswise.
    fn eq(&self, other: &Term) -> (r: bool)
        decreases self,
    {
        if self.value != other.value {
            return false;
        }
        match (&self.expression, &other.expression) {
            (Some((op1, a1, b1)), Some((op2, a2, b2))) => {
                *op1 == *op2 && (&**a1).eq(&**a2) && (&**b1).eq(&**b2)
            },
            (None, None) => true,
            _ => false,
        }
    }
}

impl vstd::std_specs::cmp::PartialEqSpecImpl for Term {
    open spec fn obeys_eq_spec() -> bool {
        true
    }

    open spec fn eq_spec(&self, other: &Term) -> bool {
        *self == *other
    }
}

} // verus!
