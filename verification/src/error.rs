use vstd::prelude::*;

use crate::id::NodeId;

use vstd::string::StringExecFns;

verus! {

/// Error returned when compact graph construction fails.
#[derive(Clone, Debug, Eq, PartialEq, Structural)]
pub enum BuildError {
    /// More than `u32::MAX` nodes were provided.
    TooManyNodes { count: usize },
    /// More than `u32::MAX` edges were provided.
    TooManyEdges { count: usize },
    /// An edge references a node that does not exist in the graph.
    InvalidNodeId { id: NodeId, node_count: usize },
}

/// Accepts `id` when it names one of the first `node_count` nodes.
pub(crate) fn validate_node_id(id: NodeId, node_count: usize) -> (r: Result<(), BuildError>)
    ensures
        id@ < node_count ==> r == Ok::<(), BuildError>(()),
        id@ >= node_count ==> r == Err::<(), BuildError>(BuildError::InvalidNodeId { id, node_count }),
{
    if id.index() < node_count {
        Ok(())
    } else {
        Err(BuildError::InvalidNodeId { id, node_count })
    }
}

/// The character of a decimal digit.
pub open spec fn digit_char(d: nat) -> char {
    if d == 0 {
        '0'
    } else if d == 1 {
        '1'
    } else if d == 2 {
        '2'
    } else if d == 3 {
        '3'
    } else if d == 4 {
        '4'
    } else if d == 5 {
        '5'
    } else if d == 6 {
        '6'
    } else if d == 7 {
        '7'
    } else if d == 8 {
        '8'
    } else {
        '9'
    }
}

/// The decimal representation of `v`, without leading zeros.
pub open spec fn decimal(v: nat) -> Seq<char>
    decreases v,
{
    if v < 10 {
        seq![digit_char(v)]
    } else {
        decimal(v / 10).push(digit_char(v % 10))
    }
}

/// Appends the decimal representation of `v` to `s`.
fn push_decimal(s: &mut String, v: usize)
    ensures
        final(s)@ == old(s)@ + decimal(v as nat),
    decreases v,
{
    if v >= 10 {
        push_decimal(s, v / 10);
    }
    let d = v % 10;
    let digit = if d == 0 {
        "0"
    } else if d == 1 {
        "1"
    } else if d == 2 {
        "2"
    } else if d == 3 {
        "3"
    } else if d == 4 {
        "4"
    } else if d == 5 {
        "5"
    } else if d == 6 {
        "6"
    } else if d == 7 {
        "7"
    } else if d == 8 {
        "8"
    } else {
        "9"
    };
    proof {
        reveal_strlit("0");
        reveal_strlit("1");
        reveal_strlit("2");
        reveal_strlit("3");
        reveal_strlit("4");
        reveal_strlit("5");
        reveal_strlit("6");
        reveal_strlit("7");
        reveal_strlit("8");
        reveal_strlit("9");
        assert(digit@ =~= seq![digit_char(d as nat)]);
    }
    let ghost before = s@;
    s.append(digit);
    proof {
        if v >= 10 {
            assert(s@ =~= old(s)@ + decimal(v as nat));
        } else {
            assert(s@ =~= old(s)@ + decimal(v as nat));
        }
    }
}

/// The message that describes `e`.
pub open spec fn build_error_message(e: BuildError) -> Seq<char> {
    match e {
        BuildError::TooManyNodes { count } => "graph has "@ + decimal(count as nat) + " nodes, exceeding u32::MAX"@,
        BuildError::TooManyEdges { count } => "graph has "@ + decimal(count as nat) + " edges, exceeding u32::MAX"@,
        BuildError::InvalidNodeId { id, node_count } => "node id "@ + decimal(id@) + " is out of bounds for "@
            + decimal(node_count as nat) + " nodes"@,
    }
}

impl BuildError {
    /// Describes the error in words.
    pub fn to_string(&self) -> (s: String)
        ensures
            s@ == build_error_message(*self),
    {
        match self {
            BuildError::TooManyNodes { count } => {
                let mut s = String::from_str("graph has ");
                push_decimal(&mut s, *count);
                s.append(" nodes, exceeding u32::MAX");
                s
            },
            BuildError::TooManyEdges { count } => {
                let mut s = String::from_str("graph has ");
                push_decimal(&mut s, *count);
                s.append(" edges, exceeding u32::MAX");
                s
            },
            BuildError::InvalidNodeId { id, node_count } => {
                let mut s = String::from_str("node id ");
                push_decimal(&mut s, id.index());
                s.append(" is out of bounds for ");
                push_decimal(&mut s, *node_count);
                s.append(" nodes");
                s
            },
        }
    }
}

} // verus!
