//! The metadata document written out as JSON text.
use vstd::prelude::*;

use crate::decimal::decimal_value;
use crate::tree::{Child, Document, Node};

verus! {

broadcast use {vstd::std_specs::vec::group_vec_axioms, vstd::seq::group_seq_axioms};

/// The JSON string literal that stands for `s`, quotes and escapes included.
pub uninterp spec fn json_quoted(s: Seq<char>) -> Seq<char>;

/// Relies on `serde_json::to_string` for a `String`: it writes the JSON string literal of its
/// argument, which depends on the characters alone, and cannot fail for a string.
#[verifier::external_body]
fn quote(s: &String) -> (r: String)
    ensures
        r@ == json_quoted(s@),
{
    serde_json::to_string(s).unwrap_or_default()
}

/// The character of decimal digit `d`.
pub open spec fn digit_char(d: nat) -> char {
    seq!['0', '1', '2', '3', '4', '5', '6', '7', '8', '9'][d as int]
}

/// `n` in decimal, without leading zeros.
pub open spec fn decimal_text(n: nat) -> Seq<char>
    decreases n,
{
    if n < 10 {
        seq![digit_char(n)]
    } else {
        decimal_text(n / 10).push(digit_char(n % 10))
    }
}

/// The text of a node: a directory as an object holding the object of its members under
/// `"files"`; a file as an object with its offset as a decimal string and its size as a number.
pub open spec fn node_text(node: Node) -> Seq<char>
    decreases node, 0int,
{
    match node {
        Node::Directory(members) => "{\"files\":{"@ + members_text(members@, 0) + "}}"@,
        Node::File { offset, size } => "{\"offset\":\""@ + decimal_text(offset as nat)
            + "\",\"size\":"@ + decimal_text(size as nat) + "}"@,
    }
}

/// The members from index `i` on as `"name":node` pairs, separated by commas.
pub open spec fn members_text(s: Seq<Child>, i: int) -> Seq<char>
    decreases s, s.len() - i,
{
    if 0 <= i < s.len() {
        (if i > 0 {
            ","@
        } else {
            ""@
        }) + json_quoted(s[i].name@) + ":"@ + node_text(s[i].node) + members_text(s, i + 1)
    } else {
        ""@
    }
}

/// The text of a whole document.
pub open spec fn document_text(doc: Document) -> Seq<char> {
    "{\"files\":{"@ + members_text(doc.files@, 0) + "}}"@
}

fn digit_str(d: u64) -> (r: &'static str)
    requires
        d < 10,
    ensures
        r@ == seq![digit_char(d as nat)],
{
    proof {
        reveal_strlit("0");
        reveal_strlit("1");
        reveal_strlit("2");
        reveal_strlit("3");
        reveal_strlit("4");
        reveal_strlit("5");
        reveal_strlit("6");
        reveal_strlit("7");
        reveal_strlit("8");
        reveal_strlit("9");
    }
    if d == 0 {
        "0"
    } else if d == 1 {
        "1"
    } else if d == 2 {
        "2"
    } else if d == 3 {
        "3"
    } else if d == 4 {
        "4"
    } else if d == 5 {
        "5"
    } else if d == 6 {
        "6"
    } else if d == 7 {
        "7"
    } else if d == 8 {
        "8"
    } else {
        "9"
    }
}

/// `n` in decimal.
pub fn decimal_string(n: u64) -> (r: String)
    ensures
        r@ == decimal_text(n as nat),
    decreases n,
{
    if n < 10 {
        String::from_str(digit_str(n))
    } else {
        let mut s = decimal_string(n / 10);
        s.append(digit_str(n % 10));
        assert(s@ =~= decimal_text(n as nat));
        s
    }
}

fn write_node(node: &Node, out: &mut String)
    ensures
        final(out)@ == old(out)@ + node_text(*node),
    decreases node,
{
    match node {
        Node::Directory(members) => {
            out.append("{\"files\":{");
            write_members(members, out);
            out.append("}}");
            assert(final(out)@ =~= old(out)@ + node_text(*node));
        },
        Node::File { offset, size } => {
            out.append("{\"offset\":\"");
            out.append(decimal_string(*offset).as_str());
            out.append("\",\"size\":");
            out.append(decimal_string(*size).as_str());
            out.append("}");
            assert(final(out)@ =~= old(out)@ + node_text(*node));
        },
    }
}

fn write_members(members: &Vec<Child>, out: &mut String)
    ensures
        final(out)@ == old(out)@ + members_text(members@, 0),
    decreases members,
{
    let mut i: usize = 0;
    while i < members.len()
        invariant
            0 <= i <= members@.len(),
            old(out)@ + members_text(members@, 0) == out@ + members_text(members@, i as int),
        decreases members.len() - i,
    {
        let ghost before = out@;
        if i > 0 {
            out.append(",");
        } else {
            out.append("");
        }
        out.append(quote(&members[i].name).as_str());
        out.append(":");
        write_node(&members[i].node, out);
        assert(before + members_text(members@, i as int) =~= out@ + members_text(
            members@,
            i + 1,
        ));
        i = i + 1;
    }
    proof {
        reveal_strlit("");
    }
    assert(out@ + members_text(members@, i as int) =~= out@);
}

impl Document {
    /// The document as JSON text: `{"files":{...}}`, each directory an object with its members
    /// under `"files"`, each file an object with `"offset"` (a decimal string) and `"size"`.
    pub fn encode(&self) -> (r: String)
        ensures
            r@ == document_text(*self),
    {
        let mut out = String::new();
        out.append("{\"files\":{");
        write_members(&self.files, &mut out);
        out.append("}}");
        assert(out@ =~= document_text(*self));
        out
    }
}

proof fn lemma_digit_char(d: nat)
    requires
        d < 10,
    ensures
        digit_char(d) as nat == '0' as nat + d,
{
    let s = seq!['0', '1', '2', '3', '4', '5', '6', '7', '8', '9'];
    assert(s[0] == '0' && s[1] == '1' && s[2] == '2' && s[3] == '3' && s[4] == '4');
    assert(s[5] == '5' && s[6] == '6' && s[7] == '7' && s[8] == '8' && s[9] == '9');
}

/// Reading back the decimal text of a number gives the number.
pub proof fn lemma_decimal_round_trip(n: nat)
    ensures
        decimal_value(decimal_text(n)) == n,
    decreases n,
{
    lemma_digit_char(n % 10);
    let t = decimal_text(n);
    if n < 10 {
        assert(t.drop_last() =~= Seq::<char>::empty());
        assert(t.last() == digit_char(n));
        assert(decimal_value(t.drop_last()) == 0);
    } else {
        lemma_decimal_round_trip(n / 10);
        assert(t.drop_last() =~= decimal_text(n / 10));
        assert(t.last() == digit_char(n % 10));
        assert(n == (n / 10) * 10 + n % 10);
    }
    assert(decimal_value(t) == decimal_value(t.drop_last()) * 10 + (t.last() as nat - '0' as nat) as nat);
}

} // verus!
