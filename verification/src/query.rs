//! Identifiers, query plans, and the planner that maps a parsed statement
//! to an executable plan.
use vstd::prelude::*;

use crate::parser::ASTNode;

verus! {

/// The name of a column or a table. Equality is by exact text; no case
/// folding.
#[derive(Debug, PartialEq, Eq, Hash)]
pub struct Identifier(pub String);

impl View for Identifier {
    type V = Seq<char>;

    open spec fn view(&self) -> Seq<char> {
        self.0@
    }
}

impl DeepView for Identifier {
    type V = Seq<char>;

    open spec fn deep_view(&self) -> Seq<char> {
        self.0@
    }
}

impl Clone for Identifier {
    fn clone(&self) -> (r: Self)
        ensures
            r == *self,
    {
        Identifier(self.0.clone())
    }
}

impl From<String> for Identifier {
    fn from(s: String) -> (r: Self)
        ensures
            r == Identifier(s),
    {
        Identifier(s)
    }
}

impl vstd::std_specs::convert::FromSpecImpl<String> for Identifier {
    open spec fn obeys_from_spec() -> bool {
        true
    }

    open spec fn from_spec(s: String) -> Self {
        Identifier(s)
    }
}

/// What will be executed: a projection list and the table it reads. The
/// projection may be the single sentinel identifier `*`, which the executor
/// resolves to the table's declared column list.
#[derive(Debug)]
pub struct QueryPlan {
    pub projection: Vec<Identifier>,
    pub table: Identifier,
}

/// Maps an abstract syntax tree to a `QueryPlan`. It does no rewriting: the
/// projection and table identifiers are copied verbatim.
pub struct QueryPlanner {}

impl QueryPlanner {
    pub fn new() -> (r: Self)
        ensures
            r == (QueryPlanner {  }),
    {
        QueryPlanner {  }
    }

    /// Copies the select statement's projection and table into a plan. Any
    /// other syntax tree shape is a caller contract violation, ruled out
    /// here rather than recovered from at run time.
    pub fn plan(&self, ast: &ASTNode) -> (r: QueryPlan)
        requires
            ast is SelectStatement,
        ensures
            r.projection.deep_view() == ast->SelectStatement_projection.deep_view(),
            r.table@ == ast->SelectStatement_table@,
    {
        match ast {
            ASTNode::SelectStatement { projection, table } => {
                let mut cols: Vec<Identifier> = Vec::new();
                let mut i: usize = 0;
                while i < projection.len()
                    invariant
                        i <= projection.len(),
                        cols@.len() == i,
                        forall|j: int| 0 <= j < i ==> #[trigger] cols@[j] == projection@[j],
                    decreases projection.len() - i,
                {
                    cols.push(projection[i].clone());
                    i = i + 1;
                }
                proof {
                    assert(cols.deep_view() =~= projection.deep_view());
                }
                QueryPlan { projection: cols, table: table.clone() }
            },
            ASTNode::Identifier(_) => {
                // unreachable by the requires clause
                proof {
                    assert(false);
                }
                QueryPlan { projection: Vec::new(), table: Identifier(String::new()) }
            },
        }
    }
}

} // verus!
