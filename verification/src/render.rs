use vstd::prelude::*;

verus! {

/// A node in short: its value and its gradient, each as the text given.
pub open spec fn short_text(data: Seq<char>, grad: Seq<char>) -> Seq<char> {
    "Value { data: "@ + data + ", grad: "@ + grad + " }"@
}

/// The first `k` of `parents`, each after a blank and before a comma.
pub open spec fn listed(parents: Seq<String>, k: int) -> Seq<char>
    decreases k,
{
    if k <= 0 {
        Seq::empty()
    } else {
        listed(parents, k - 1) + " "@ + parents[k - 1]@ + ","@
    }
}

/// A node in full: its value, its gradient and the tag of its operation,
/// and after them the values of its operands, if it has any.
pub open spec fn full_text(
    data: Seq<char>,
    grad: Seq<char>,
    op: Seq<char>,
    parents: Seq<String>,
) -> Seq<char> {
    "Value { data: "@ + data + ", grad: "@ + grad + ", op: '"@ + op + "' }"@ + if parents.len()
        > 0 {
        ", parents: ["@ + listed(parents, parents.len() as int) + " ]"@
    } else {
        Seq::empty()
    } + " }"@
}

/// Writes a node in short, for a reader, from the texts of its value and of
/// its gradient.
pub fn short(data: &str, grad: &str) -> (s: String)
    ensures
        s@ == short_text(data@, grad@),
{
    let mut s = String::from_str("Value { data: ");
    s.append(data);
    s.append(", grad: ");
    s.append(grad);
    s.append(" }");
    s
}

/// Writes a node in full, for debugging, from the texts of its value and of
/// its gradient, the tag of its operation and the texts of the values of its
/// operands, in order.
pub fn full(data: &str, grad: &str, op: &str, parents: &Vec<String>) -> (s: String)
    ensures
        s@ == full_text(data@, grad@, op@, parents@),
{
    let mut s = String::from_str("Value { data: ");
    s.append(data);
    s.append(", grad: ");
    s.append(grad);
    s.append(", op: '");
    s.append(op);
    s.append("' }");
    if parents.len() > 0 {
        s.append(", parents: [");
        let ghost open = s@;
        let mut k: usize = 0;
        while k < parents.len()
            invariant
                k <= parents.len(),
                s@ == open + listed(parents@, k as int),
            decreases parents.len() - k,
        {
            s.append(" ");
            s.append(parents[k].as_str());
            s.append(",");
            k += 1;
        }
        s.append(" ]");
    }
    s.append(" }");
    s
}

} // verus!
