//! Identifiers for a drawing of an automaton: the name of the graph and the
//! names of its nodes.

use vstd::prelude::*;
use vstd::string::StringExecFns;

verus! {

/// Whether `c` is a letter of the ASCII alphabet or an underscore.
pub open spec fn is_letter_or_underscore(c: char) -> bool {
    ('a' <= c && c <= 'z') || ('A' <= c && c <= 'Z') || c == '_'
}

/// Whether `c` may stand in an identifier: a letter, an underscore or a
/// digit.
pub open spec fn is_constituent(c: char) -> bool {
    is_letter_or_underscore(c) || ('0' <= c && c <= '9')
}

/// Whether `name` is an identifier: not empty, made of letters, digits and
/// underscores, and not beginning with a digit.
pub open spec fn is_identifier(name: Seq<char>) -> bool {
    &&& name.len() > 0
    &&& is_letter_or_underscore(name[0])
    &&& forall|i: int| 1 <= i < name.len() ==> is_constituent(#[trigger] name[i])
}

/// The digit that stands for `d`.
pub open spec fn digit(d: nat) -> char {
    if d == 0 {
        '0'
    } else if d == 1 {
        '1'
    } else if d == 2 {
        '2'
    } else if d == 3 {
        '3'
    } else if d == 4 {
        '4'
    } else if d == 5 {
        '5'
    } else if d == 6 {
        '6'
    } else if d == 7 {
        '7'
    } else if d == 8 {
        '8'
    } else {
        '9'
    }
}

/// The decimal digits of `n`, the most significant first.
pub open spec fn digits(n: nat) -> Seq<char>
    decreases n,
{
    if n < 10 {
        seq![digit(n)]
    } else {
        digits(n / 10).push(digit(n % 10))
    }
}

/// The name of the node that stands for the state `node`.
pub open spec fn node_name_spec(node: nat) -> Seq<char> {
    seq!['s', 't', 'a', 't', 'e', '_'] + digits(node)
}

/// The digits of a number are digits.
pub proof fn lemma_digits(n: nat)
    ensures
        digits(n).len() > 0,
        forall|i: int| 0 <= i < digits(n).len() ==> is_constituent(#[trigger] digits(n)[i]),
    decreases n,
{
    if n >= 10 {
        lemma_digits(n / 10);
    }
}

/// The name of a node is an identifier.
pub proof fn lemma_node_name_is_identifier(node: nat)
    ensures
        is_identifier(node_name_spec(node)),
{
    lemma_digits(node);
    let name = node_name_spec(node);
    assert forall|i: int| 1 <= i < name.len() implies is_constituent(#[trigger] name[i]) by {
        if i >= 6 {
            assert(name[i] == digits(node)[i - 6]);
        }
    }
}

/// The text of one digit.
fn digit_text(d: usize) -> (text: &'static str)
    requires
        d < 10,
    ensures
        text@ == seq![digit(d as nat)],
{
    proof {
        reveal_strlit("0");
        reveal_strlit("1");
        reveal_strlit("2");
        reveal_strlit("3");
        reveal_strlit("4");
        reveal_strlit("5");
        reveal_strlit("6");
        reveal_strlit("7");
        reveal_strlit("8");
        reveal_strlit("9");
    }
    let text = if d == 0 {
        "0"
    } else if d == 1 {
        "1"
    } else if d == 2 {
        "2"
    } else if d == 3 {
        "3"
    } else if d == 4 {
        "4"
    } else if d == 5 {
        "5"
    } else if d == 6 {
        "6"
    } else if d == 7 {
        "7"
    } else if d == 8 {
        "8"
    } else {
        "9"
    };
    assert(text@ =~= seq![digit(d as nat)]);
    text
}

/// The number `n` in decimal digits.
pub fn decimal(n: usize) -> (text: String)
    ensures
        text@ == digits(n as nat),
    decreases n,
{
    if n < 10 {
        String::from_str(digit_text(n))
    } else {
        let mut text = decimal(n / 10);
        text.append(digit_text(n % 10));
        assert(text@ =~= digits(n as nat));
        text
    }
}

/// The name of the node that stands for the state `node`: `state_` and the
/// state's identifier in decimal digits.
pub fn node_name(node: usize) -> (name: String)
    ensures
        name@ == node_name_spec(node as nat),
        is_identifier(name@),
{
    proof {
        reveal_strlit("state_");
        lemma_node_name_is_identifier(node as nat);
    }
    let digits = decimal(node);
    let name = String::from_str("state_").concat(digits.as_str());
    assert(name@ =~= node_name_spec(node as nat));
    name
}

/// `dot::Id::new`, asked only whether it accepts `name`. That function
/// accepts a name exactly where it is not empty, begins with an ASCII letter
/// or an underscore, and goes on with ASCII letters, ASCII digits and
/// underscores only; it fails on every other name. The contract claims this
/// and nothing else.
#[verifier::external_body]
fn accepted(name: &str) -> (valid: bool)
    ensures
        valid == is_identifier(name@),
{
    dot::Id::new(name).is_ok()
}

/// A name that the renderer accepts as an identifier.
#[derive(Debug)]
pub struct Ident {
    text: String,
}

impl View for Ident {
    type V = Seq<char>;

    closed spec fn view(&self) -> Seq<char> {
        self.text@
    }
}

impl Ident {
    #[verifier::type_invariant]
    spec fn inv(&self) -> bool {
        is_identifier(self.text@)
    }

    /// The identifier `name`, where the renderer accepts it.
    pub fn new(name: String) -> (id: Option<Ident>)
        ensures
            match id {
                Some(made) => made@ == name@ && is_identifier(name@),
                None => !is_identifier(name@),
            },
    {
        if accepted(name.as_str()) {
            Some(Ident { text: name })
        } else {
            None
        }
    }

    /// The identifier of the node that stands for the state `node`.
    pub fn of_node(node: usize) -> (id: Ident)
        ensures
            id@ == node_name_spec(node as nat),
    {
        Ident { text: node_name(node) }
    }

    /// The identifier's text.
    pub fn as_str(&self) -> (text: &str)
        ensures
            text@ == self@,
            is_identifier(self@),
    {
        proof {
            use_type_invariant(self);
        }
        self.text.as_str()
    }

    /// The identifier's text, given away.
    pub fn into_string(self) -> (text: String)
        ensures
            text@ == self@,
            is_identifier(self@),
    {
        proof {
            use_type_invariant(&self);
        }
        self.text
    }
}

} // verus!
