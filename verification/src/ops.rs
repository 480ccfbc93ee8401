//! The operation catalog: the fixed, ordered set of seven arithmetic
//! operations, each with an identifier, a display name, a commutativity flag,
//! a display format and a grouping policy.

use vstd::prelude::*;

use crate::text::chars_to_string;
use crate::text::push_chars;
use crate::text::string_to_chars;

verus! {

/// One of the seven supported operations. The numeric behaviour of a kind is
/// carried out by the caller's arithmetic oracle; everything else about it
/// (identifier, name, commutativity, display, grouping) is defined here.
#[derive(Clone, Copy, PartialEq, Eq, Structural, Debug)]
pub enum OpKind {
    Plus,
    Minus,
    Multiply,
    Divide,
    Power,
    Root,
    Modulo,
}

/// The catalog, in declaration order.
pub open spec fn catalog_list() -> Seq<OpKind> {
    seq![
        OpKind::Plus,
        OpKind::Minus,
        OpKind::Multiply,
        OpKind::Divide,
        OpKind::Power,
        OpKind::Root,
        OpKind::Modulo,
    ]
}

/// The identifier of an operation.
pub open spec fn op_id(k: OpKind) -> Seq<char> {
    match k {
        OpKind::Plus => "plus"@,
        OpKind::Minus => "minus"@,
        OpKind::Multiply => "multiply"@,
        OpKind::Divide => "divide"@,
        OpKind::Power => "power"@,
        OpKind::Root => "root"@,
        OpKind::Modulo => "modulo"@,
    }
}

/// The display name of an operation.
pub open spec fn op_name(k: OpKind) -> Seq<char> {
    match k {
        OpKind::Plus => "Plus"@,
        OpKind::Minus => "Minus"@,
        OpKind::Multiply => "Multiply"@,
        OpKind::Divide => "Divide"@,
        OpKind::Power => "Power"@,
        OpKind::Root => "Root"@,
        OpKind::Modulo => "Modulo"@,
    }
}

/// Whether an operation is commutative; only commutative operations have
/// their operands put into canonical order during evaluation.
pub open spec fn op_commutative(k: OpKind) -> bool {
    k == OpKind::Plus || k == OpKind::Multiply
}

/// Whether an operation wraps its rendering in parentheses when it is not at
/// the outermost level of an expression.
pub open spec fn op_groups(k: OpKind) -> bool {
    k == OpKind::Plus || k == OpKind::Minus || k == OpKind::Multiply || k == OpKind::Divide
}

/// The text between the two operand renderings, for the infix operations.
/// `Root` is the one non-infix operation and is rendered by `op_display`.
pub open spec fn op_infix(k: OpKind) -> Seq<char> {
    match k {
        OpKind::Plus => " + "@,
        OpKind::Minus => " - "@,
        OpKind::Multiply => " * "@,
        OpKind::Divide => " / "@,
        OpKind::Power => " ^ "@,
        OpKind::Root => " "@,
        OpKind::Modulo => " % "@,
    }
}

/// The rendering of an operation applied to two already-rendered operands,
/// before any grouping is applied.
pub open spec fn op_display(k: OpKind, left: Seq<char>, right: Seq<char>) -> Seq<char> {
    if k == OpKind::Root {
        "root("@ + left + ")("@ + right + ")"@
    } else {
        left + op_infix(k) + right
    }
}

/// The executable rendering of an operation applied to two rendered operands.
pub fn op_display_chars(k: OpKind, left: &Vec<char>, right: &Vec<char>) -> (r: Vec<char>)
    ensures
        r@ == op_display(k, left@, right@),
{
    let mut v: Vec<char> = Vec::new();
    match k {
        OpKind::Root => {
            v.push('r');
            v.push('o');
            v.push('o');
            v.push('t');
            v.push('(');
            proof {
                reveal_strlit("root(");
                assert(v@ =~= "root("@);
            }
            push_chars(&mut v, left);
            v.push(')');
            v.push('(');
            proof {
                reveal_strlit(")(");
                assert(v@ =~= "root("@ + left@ + ")("@);
            }
            push_chars(&mut v, right);
            v.push(')');
            proof {
                reveal_strlit(")");
                assert(v@ =~= "root("@ + left@ + ")("@ + right@ + ")"@);
            }
        },
        _ => {
            push_chars(&mut v, left);
            v.push(' ');
            match k {
                OpKind::Plus => v.push('+'),
                OpKind::Minus => v.push('-'),
                OpKind::Multiply => v.push('*'),
                OpKind::Divide => v.push('/'),
                OpKind::Power => v.push('^'),
                OpKind::Root => v.push(' '),
                OpKind::Modulo => v.push('%'),
            }
            v.push(' ');
            proof {
                reveal_strlit(" + ");
                reveal_strlit(" - ");
                reveal_strlit(" * ");
                reveal_strlit(" / ");
                reveal_strlit(" ^ ");
                reveal_strlit(" % ");
                assert(v@ =~= left@ + op_infix(k));
            }
            push_chars(&mut v, right);
            proof {
                assert(v@ =~= left@ + op_infix(k) + right@);
            }
        },
    }
    v
}

/// Wraps a rendering in parentheses.
pub open spec fn grouped(s: Seq<char>) -> Seq<char> {
    seq!['('] + s + seq![')']
}

/// The executable parenthesis wrapping.
pub fn grouped_chars(s: &Vec<char>) -> (r: Vec<char>)
    ensures
        r@ == grouped(s@),
{
    let mut v: Vec<char> = Vec::new();
    v.push('(');
    proof {
        assert(v@ =~= seq!['(']);
    }
    push_chars(&mut v, s);
    v.push(')');
    proof {
        assert(v@ =~= seq!['('] + s@ + seq![')']);
    }
    v
}

/// Looks an identifier up in the catalog: the first catalog entry whose
/// identifier equals `id`, in declaration order.
pub open spec fn spec_lookup(id: Seq<char>) -> Option<OpKind> {
    if id == op_id(OpKind::Plus) {
        Some(OpKind::Plus)
    } else if id == op_id(OpKind::Minus) {
        Some(OpKind::Minus)
    } else if id == op_id(OpKind::Multiply) {
        Some(OpKind::Multiply)
    } else if id == op_id(OpKind::Divide) {
        Some(OpKind::Divide)
    } else if id == op_id(OpKind::Power) {
        Some(OpKind::Power)
    } else if id == op_id(OpKind::Root) {
        Some(OpKind::Root)
    } else if id == op_id(OpKind::Modulo) {
        Some(OpKind::Modulo)
    } else {
        None
    }
}

/// The executable catalog lookup.
pub fn lookup_op(id: &String) -> (r: Option<OpKind>)
    ensures
        r == spec_lookup(id@),
{
    if id.eq(&"plus".to_owned()) {
        Some(OpKind::Plus)
    } else if id.eq(&"minus".to_owned()) {
        Some(OpKind::Minus)
    } else if id.eq(&"multiply".to_owned()) {
        Some(OpKind::Multiply)
    } else if id.eq(&"divide".to_owned()) {
        Some(OpKind::Divide)
    } else if id.eq(&"power".to_owned()) {
        Some(OpKind::Power)
    } else if id.eq(&"root".to_owned()) {
        Some(OpKind::Root)
    } else if id.eq(&"modulo".to_owned()) {
        Some(OpKind::Modulo)
    } else {
        None
    }
}

/// An operation as the hosting application sees it: identifier, display name
/// and commutativity flag.
#[derive(Clone, Debug, PartialEq, Eq)]
pub struct Operation {
    pub id: String,
    pub name: String,
    pub is_commutative: bool,
}

/// The mathematical content of an [`Operation`].
pub ghost struct OperationV {
    pub id: Seq<char>,
    pub name: Seq<char>,
    pub is_commutative: bool,
}

impl View for Operation {
    type V = OperationV;

    open spec fn view(&self) -> OperationV {
        OperationV { id: self.id@, name: self.name@, is_commutative: self.is_commutative }
    }
}

/// The catalog entry for one kind, as the hosting application sees it.
pub open spec fn op_view(k: OpKind) -> OperationV {
    OperationV { id: op_id(k), name: op_name(k), is_commutative: op_commutative(k) }
}

/// Builds the public descriptor of one operation kind.
pub fn make_operation(k: OpKind) -> (r: Operation)
    ensures
        r@ == op_view(k),
{
    match k {
        OpKind::Plus => Operation {
            id: "plus".to_owned(),
            name: "Plus".to_owned(),
            is_commutative: true,
        },
        OpKind::Minus => Operation {
            id: "minus".to_owned(),
            name: "Minus".to_owned(),
            is_commutative: false,
        },
        OpKind::Multiply => Operation {
            id: "multiply".to_owned(),
            name: "Multiply".to_owned(),
            is_commutative: true,
        },
        OpKind::Divide => Operation {
            id: "divide".to_owned(),
            name: "Divide".to_owned(),
            is_commutative: false,
        },
        OpKind::Power => Operation {
            id: "power".to_owned(),
            name: "Power".to_owned(),
            is_commutative: false,
        },
        OpKind::Root => Operation {
            id: "root".to_owned(),
            name: "Root".to_owned(),
            is_commutative: false,
        },
        OpKind::Modulo => Operation {
            id: "modulo".to_owned(),
            name: "Modulo".to_owned(),
            is_commutative: false,
        },
    }
}

/// A catalog entry together with the kind that selects its behaviour.
pub struct OperationWithActions {
    pub operation: Operation,
    pub kind: OpKind,
}

/// The ordered catalog with behaviours attached.
pub fn operations_catalog() -> (r: Vec<OperationWithActions>)
    ensures
        r@.len() == catalog_list().len(),
        forall|i: int|
            0 <= i < r@.len() ==> #[trigger] r@[i].kind == catalog_list()[i] && r@[i].operation@
                == op_view(catalog_list()[i]),
{
    let mut v: Vec<OperationWithActions> = Vec::new();
    v.push(OperationWithActions { operation: make_operation(OpKind::Plus), kind: OpKind::Plus });
    v.push(OperationWithActions { operation: make_operation(OpKind::Minus), kind: OpKind::Minus });
    v.push(
        OperationWithActions { operation: make_operation(OpKind::Multiply), kind: OpKind::Multiply },
    );
    v.push(
        OperationWithActions { operation: make_operation(OpKind::Divide), kind: OpKind::Divide },
    );
    v.push(OperationWithActions { operation: make_operation(OpKind::Power), kind: OpKind::Power });
    v.push(OperationWithActions { operation: make_operation(OpKind::Root), kind: OpKind::Root });
    v.push(
        OperationWithActions { operation: make_operation(OpKind::Modulo), kind: OpKind::Modulo },
    );
    v
}

/// The ordered, read-only snapshot of the catalog: identifier, display name
/// and commutativity flag of every operation, in declaration order.
pub fn get_operations() -> (r: Vec<Operation>)
    ensures
        r@.len() == catalog_list().len(),
        forall|i: int| 0 <= i < r@.len() ==> #[trigger] r@[i]@ == op_view(catalog_list()[i]),
{
    let mut v: Vec<Operation> = Vec::new();
    v.push(make_operation(OpKind::Plus));
    v.push(make_operation(OpKind::Minus));
    v.push(make_operation(OpKind::Multiply));
    v.push(make_operation(OpKind::Divide));
    v.push(make_operation(OpKind::Power));
    v.push(make_operation(OpKind::Root));
    v.push(make_operation(OpKind::Modulo));
    v
}

/// The failure text when an identifier is not in the catalog.
pub open spec fn unknown_op_message(id: Seq<char>) -> Seq<char> {
    "Failed to find operation with id of '"@ + id + "'."@
}

/// Builds the failure text for an unknown identifier.
pub fn unknown_op_message_chars(id: &String) -> (r: Vec<char>)
    ensures
        r@ == unknown_op_message(id@),
{
    let mut v = string_to_chars("Failed to find operation with id of '");
    let id_chars = string_to_chars(id.as_str());
    push_chars(&mut v, &id_chars);
    let tail = string_to_chars("'.");
    push_chars(&mut v, &tail);
    v
}

/// Applies the display format of the operation named by `operation_id` to the
/// two operand texts, with no grouping and no evaluation. Fails, with the
/// failure text naming the identifier, exactly when the identifier is not in
/// the catalog.
pub fn format_equation(operation_id: String, left: String, right: String) -> (r: Result<
    String,
    String,
>)
    ensures
        match spec_lookup(operation_id@) {
            Some(k) => r is Ok && r->Ok_0@ == op_display(k, left@, right@),
            None => r is Err && r->Err_0@ == unknown_op_message(operation_id@),
        },
{
    match lookup_op(&operation_id) {
        Some(k) => {
            let l = string_to_chars(left.as_str());
            let rt = string_to_chars(right.as_str());
            let shown = op_display_chars(k, &l, &rt);
            Ok(chars_to_string(&shown))
        },
        None => {
            let msg = unknown_op_message_chars(&operation_id);
            Err(chars_to_string(&msg))
        },
    }
}

} // verus!
