//! The human-readable failure descriptions that fallible operations return.

use vstd::prelude::*;

verus! {

/// The decimal digit character for `d`.
pub open spec fn spec_digit(d: nat) -> char {
    if d == 0 {
        '0'
    } else if d == 1 {
        '1'
    } else if d == 2 {
        '2'
    } else if d == 3 {
        '3'
    } else if d == 4 {
        '4'
    } else if d == 5 {
        '5'
    } else if d == 6 {
        '6'
    } else if d == 7 {
        '7'
    } else if d == 8 {
        '8'
    } else {
        '9'
    }
}

/// The decimal rendering of `n`, most significant digit first.
pub open spec fn spec_decimal(n: nat) -> Seq<char>
    decreases n,
{
    if n < 10 {
        seq![spec_digit(n)]
    } else {
        spec_decimal(n / 10).push(spec_digit(n % 10))
    }
}

/// Appends the single decimal digit `d` to `s`.
fn push_digit(s: &mut String, d: usize)
    requires
        d < 10,
    ensures
        final(s)@ == old(s)@.push(spec_digit(d as nat)),
{
    let ghost prefix = s@;
    match d {
        0 => s.append("0"),
        1 => s.append("1"),
        2 => s.append("2"),
        3 => s.append("3"),
        4 => s.append("4"),
        5 => s.append("5"),
        6 => s.append("6"),
        7 => s.append("7"),
        8 => s.append("8"),
        _ => s.append("9"),
    }
    proof {
        reveal_strlit("0");
        reveal_strlit("1");
        reveal_strlit("2");
        reveal_strlit("3");
        reveal_strlit("4");
        reveal_strlit("5");
        reveal_strlit("6");
        reveal_strlit("7");
        reveal_strlit("8");
        reveal_strlit("9");
        assert(s@ =~= prefix.push(spec_digit(d as nat)));
    }
}

/// Appends the decimal rendering of `x` to `s`.
fn push_decimal(s: &mut String, x: usize)
    ensures
        final(s)@ == old(s)@ + spec_decimal(x as nat),
    decreases x,
{
    let ghost prefix = s@;
    if x < 10 {
        push_digit(s, x);
        assert(s@ =~= prefix + spec_decimal(x as nat));
    } else {
        push_decimal(s, x / 10);
        push_digit(s, x % 10);
        assert(s@ =~= prefix + spec_decimal(x as nat));
    }
}

/// "{prefix}{a}{mid}{b}{suffix}": the shape shared by the reports that
/// name two ids.
fn pair_msg(prefix: &str, a: usize, mid: &str, b: usize, suffix: &str) -> (s: String)
    ensures
        s@ == prefix@ + spec_decimal(a as nat) + mid@ + spec_decimal(b as nat) + suffix@,
{
    let mut s = String::from_str(prefix);
    push_decimal(&mut s, a);
    s.append(mid);
    push_decimal(&mut s, b);
    s.append(suffix);
    assert(s@ =~= prefix@ + spec_decimal(a as nat) + mid@ + spec_decimal(b as nat) + suffix@);
    s
}

/// "Ids do not match the list structure."
pub fn ids_mismatch() -> (s: String)
    ensures
        s@ == "Ids do not match the list structure."@,
{
    String::from_str("Ids do not match the list structure.")
}

/// "Listed dependency {dep} for node with id {id} not present in graph."
pub fn listed_dep_missing(dep: usize, id: usize) -> (s: String) {
    pair_msg("Listed dependency ", dep, " for node with id ", id, " not present in graph.")
}

/// "Listed parent {par} for node with id {id} not present in graph."
pub fn listed_parent_missing(par: usize, id: usize) -> (s: String) {
    pair_msg("Listed parent ", par, " for node with id ", id, " not present in graph.")
}

/// The report for a dependency entry whose inverse edge is missing.
pub fn one_sided_dep(par: usize, id: usize) -> (s: String) {
    pair_msg(
        "One-sided dependency encountered: child with id ",
        par,
        " does not acknowledge the claimed parental status of node with id ",
        id,
        "",
    )
}

/// The report for a parent entry whose inverse edge is missing.
pub fn one_sided_parent(par: usize, id: usize) -> (s: String) {
    pair_msg(
        "One-sided dependency encountered: parent with id ",
        par,
        " does not acknowledge the claimed child status of node with id ",
        id,
        "",
    )
}

/// The report for a duplicated edge-list entry.
pub fn duplicate_entry(id: usize) -> (s: String) {
    let mut s = String::from_str("Duplicate edge entry listed for node with id ");
    push_decimal(&mut s, id);
    s.append(".");
    s
}

/// "Node with id {id} not present in todos."
pub fn node_missing(id: usize) -> (s: String)
    ensures
        s@ == "Node with id "@ + spec_decimal(id as nat) + " not present in todos."@,
{
    let mut s = String::from_str("Node with id ");
    push_decimal(&mut s, id);
    s.append(" not present in todos.");
    assert(s@ =~= "Node with id "@ + spec_decimal(id as nat) + " not present in todos."@);
    s
}

/// "Node with id {id} not present in todos.\n", one line of a batch report.
pub fn node_missing_line(id: usize) -> (s: String)
    ensures
        s@ == "Node with id "@ + spec_decimal(id as nat) + " not present in todos.\n"@,
{
    let mut s = String::from_str("Node with id ");
    push_decimal(&mut s, id);
    s.append(" not present in todos.\n");
    assert(s@ =~= "Node with id "@ + spec_decimal(id as nat) + " not present in todos.\n"@);
    s
}

/// "Node {id} not found."
pub fn node_not_found(id: usize) -> (s: String)
    ensures
        s@ == "Node "@ + spec_decimal(id as nat) + " not found."@,
{
    let mut s = String::from_str("Node ");
    push_decimal(&mut s, id);
    s.append(" not found.");
    assert(s@ =~= "Node "@ + spec_decimal(id as nat) + " not found."@);
    s
}

/// "Parent node {id} doesn't exist."
pub fn parent_missing(id: usize) -> (s: String)
    ensures
        s@ == "Parent node "@ + spec_decimal(id as nat) + " doesn't exist."@,
{
    let mut s = String::from_str("Parent node ");
    push_decimal(&mut s, id);
    s.append(" doesn't exist.");
    assert(s@ =~= "Parent node "@ + spec_decimal(id as nat) + " doesn't exist."@);
    s
}

/// "Child node {id} doesn't exist."
pub fn child_missing(id: usize) -> (s: String)
    ensures
        s@ == "Child node "@ + spec_decimal(id as nat) + " doesn't exist."@,
{
    let mut s = String::from_str("Child node ");
    push_decimal(&mut s, id);
    s.append(" doesn't exist.");
    assert(s@ =~= "Child node "@ + spec_decimal(id as nat) + " doesn't exist."@);
    s
}

} // verus!
