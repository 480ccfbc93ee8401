//! The solver pipeline: validates the configuration, enumerates every leaf
//! ordering, every parenthesization and every per-depth operation
//! assignment, evaluates every combination, keeps the candidates whose total
//! is an integer inside the configured range, and returns them deduplicated
//! and sorted by their sortable key.

use vstd::prelude::*;

use crate::eval::EvalOut;
use crate::eval::calculate_result;
use crate::eval::eval_spec;
use crate::ops::OpKind;
use crate::ops::catalog_list;
use crate::ops::op_id;
use crate::ops::spec_lookup;
use crate::oracle::FloatAnswer;
use crate::oracle::FloatQuery;
use crate::oracle::ask_flag;
use crate::oracle::ask_int;
use crate::oracle::m_flag;
use crate::oracle::m_int;
use crate::oracle::oracle_callable;
use crate::oracle::oracle_models;
use crate::text::chars_to_string;
use crate::text::dec_digits;
use crate::text::lex_le;
use crate::text::lex_le_chars;
use crate::text::pad4;
use crate::text::pad4_digits;
use crate::text::push_chars;
use crate::text::sortable_chars;
use crate::text::sortable_of;
use crate::text::string_to_chars;
use crate::text::u64_to_digits;
use crate::tree::PairingEntry;
use crate::tree::fringe;
use crate::tree::fringe_seq;
use crate::tree::get_pairing_permutations;
use crate::tree::lemma_height_lt_leaves;
use crate::tree::lemma_pairings_preserve_fringe;
use crate::tree::leaf_count;
use crate::tree::pair_height;
use crate::tree::spec_pairings;

verus! {

/// The configuration of one solve: the inclusive range accepted totals must
/// lie in, the ordered face values, and the identifiers of the operations to
/// combine them with.
#[allow(non_snake_case)]
pub struct SolverConfig {
    pub minTotal: u64,
    pub maxTotal: u64,
    pub faces: Vec<isize>,
    pub operation_ids: Vec<String>,
}

/// The mathematical content of a [`SolverConfig`].
pub ghost struct ConfigV {
    pub min_total: u64,
    pub max_total: u64,
    pub faces: Seq<isize>,
    pub operation_ids: Seq<Seq<char>>,
}

impl View for SolverConfig {
    type V = ConfigV;

    open spec fn view(&self) -> ConfigV {
        ConfigV {
            min_total: self.minTotal,
            max_total: self.maxTotal,
            faces: self.faces@,
            operation_ids: self.operation_ids@.map_values(|s: String| s@),
        }
    }
}

/// One accepted result: the integer total, the canonical equation, the full
/// `total = equation` text, and the key the results are sorted under.
#[derive(Debug, PartialEq, Eq)]
#[allow(non_snake_case)]
pub struct CalculateResult {
    pub total: u64,
    pub equation: String,
    pub fullEquation: String,
    pub sortableEquation: String,
}

/// The mathematical content of a [`CalculateResult`].
pub ghost struct ResultV {
    pub total: u64,
    pub equation: Seq<char>,
    pub full_equation: Seq<char>,
    pub sortable_equation: Seq<char>,
}

impl View for CalculateResult {
    type V = ResultV;

    open spec fn view(&self) -> ResultV {
        ResultV {
            total: self.total,
            equation: self.equation@,
            full_equation: self.fullEquation@,
            sortable_equation: self.sortableEquation@,
        }
    }
}

/// The concatenation of `g` over the elements of `s`, in order.
pub open spec fn concat_map<A, B>(s: Seq<A>, g: spec_fn(A) -> Seq<B>) -> Seq<B>
    decreases s.len(),
{
    if s.len() == 0 {
        Seq::empty()
    } else {
        g(s[0]) + concat_map(s.drop_first(), g)
    }
}

/// Appending one element appends its expansion.
pub proof fn lemma_concat_map_push<A, B>(s: Seq<A>, g: spec_fn(A) -> Seq<B>, x: A)
    ensures
        concat_map(s.push(x), g) == concat_map(s, g) + g(x),
    decreases s.len(),
{
    if s.len() == 0 {
        assert(s.push(x).drop_first() =~= Seq::<A>::empty());
        assert(s.push(x)[0] == x);
        assert(concat_map(s.push(x), g) == g(x) + concat_map(Seq::<A>::empty(), g));
        assert(g(x) + Seq::<B>::empty() =~= g(x));
        assert(concat_map(s, g) + g(x) =~= g(x));
    } else {
        lemma_concat_map_push(s.drop_first(), g, x);
        assert(s.push(x).drop_first() =~= s.drop_first().push(x));
        assert(s.push(x)[0] == s[0]);
        assert(concat_map(s.push(x), g) =~= g(s[0]) + (concat_map(s.drop_first(), g) + g(x)));
        assert(g(s[0]) + (concat_map(s.drop_first(), g) + g(x)) =~= (g(s[0]) + concat_map(
            s.drop_first(),
            g,
        )) + g(x));
    }
}

/// Every permutation of `s`, in the order the enumerator produces them: for
/// each position in turn, the face there is put first and every permutation
/// of the remaining faces follows it.
pub open spec fn spec_permutations(s: Seq<isize>) -> Seq<Seq<isize>>
    decreases s.len(), s.len() + 1,
{
    if s.len() == 0 {
        seq![Seq::empty()]
    } else {
        perms_from(s, 0)
    }
}

/// The permutations beginning with the face at position `i` or later.
pub open spec fn perms_from(s: Seq<isize>, i: int) -> Seq<Seq<isize>>
    decreases s.len(), s.len() - i,
{
    if i < 0 || i >= s.len() {
        Seq::empty()
    } else {
        spec_permutations(s.remove(i)).map_values(|t: Seq<isize>| seq![s[i]] + t) + perms_from(
            s,
            i + 1,
        )
    }
}

/// Every permutation of `n` faces has `n` faces.
pub proof fn lemma_perm_lengths(s: Seq<isize>)
    ensures
        forall|j: int|
            0 <= j < spec_permutations(s).len() ==> #[trigger] spec_permutations(s)[j].len()
                == s.len(),
    decreases s.len(), s.len() + 1,
{
    if s.len() != 0 {
        lemma_perms_from_lengths(s, 0);
        assert(spec_permutations(s) == perms_from(s, 0));
        assert forall|j: int| 0 <= j < spec_permutations(s).len() implies #[trigger] spec_permutations(
            s,
        )[j].len() == s.len() by {
            assert(perms_from(s, 0)[j].len() == s.len());
        }
    } else {
        assert forall|j: int| 0 <= j < spec_permutations(s).len() implies #[trigger] spec_permutations(
            s,
        )[j].len() == s.len() by {
            assert(spec_permutations(s)[j] == Seq::<isize>::empty());
        }
    }
}

proof fn lemma_perms_from_lengths(s: Seq<isize>, i: int)
    requires
        s.len() >= 1,
    ensures
        forall|j: int|
            0 <= j < perms_from(s, i).len() ==> #[trigger] perms_from(s, i)[j].len() == s.len(),
    decreases s.len(), s.len() - i,
{
    if 0 <= i < s.len() {
        lemma_perm_lengths(s.remove(i));
        lemma_perms_from_lengths(s, i + 1);
        let head = spec_permutations(s.remove(i)).map_values(|t: Seq<isize>| seq![s[i]] + t);
        assert forall|j: int| 0 <= j < perms_from(s, i).len() implies #[trigger] perms_from(s, i)[j].len()
            == s.len() by {
            if j < head.len() {
                assert(perms_from(s, i)[j] == head[j]);
                assert(head[j] == seq![s[i]] + spec_permutations(s.remove(i))[j]);
                assert(spec_permutations(s.remove(i))[j].len() == s.remove(i).len());
            } else {
                assert(perms_from(s, i)[j] == perms_from(s, i + 1)[j - head.len()]);
            }
        }
    }
}

/// Every assignment drawn from the selected operations with `k` positions,
/// in the order the enumerator produces them.
pub open spec fn spec_op_power(sel: Seq<OpKind>, k: nat) -> Seq<Seq<OpKind>>
    decreases k, sel.len() + 1,
{
    if k == 0 {
        seq![Seq::empty()]
    } else {
        power_from(sel, k, 0)
    }
}

/// The assignments beginning with the operation at position `i` or later.
pub open spec fn power_from(sel: Seq<OpKind>, k: nat, i: int) -> Seq<Seq<OpKind>>
    decreases k, sel.len() - i,
{
    if k == 0 || i < 0 || i >= sel.len() {
        Seq::empty()
    } else {
        spec_op_power(sel, (k - 1) as nat).map_values(|t: Seq<OpKind>| seq![sel[i]] + t)
            + power_from(sel, k, i + 1)
    }
}

/// Every assignment over `k` positions has `k` operations.
pub proof fn lemma_power_lengths(sel: Seq<OpKind>, k: nat)
    ensures
        forall|j: int|
            0 <= j < spec_op_power(sel, k).len() ==> #[trigger] spec_op_power(sel, k)[j].len() == k,
    decreases k, sel.len() + 1,
{
    if k != 0 {
        lemma_power_from_lengths(sel, k, 0);
        assert(spec_op_power(sel, k) == power_from(sel, k, 0));
        assert forall|j: int| 0 <= j < spec_op_power(sel, k).len() implies #[trigger] spec_op_power(
            sel,
            k,
        )[j].len() == k by {
            assert(power_from(sel, k, 0)[j].len() == k);
        }
    } else {
        assert forall|j: int| 0 <= j < spec_op_power(sel, k).len() implies #[trigger] spec_op_power(
            sel,
            k,
        )[j].len() == k by {
            assert(spec_op_power(sel, k)[j] == Seq::<OpKind>::empty());
        }
    }
}

proof fn lemma_power_from_lengths(sel: Seq<OpKind>, k: nat, i: int)
    requires
        k >= 1,
    ensures
        forall|j: int|
            0 <= j < power_from(sel, k, i).len() ==> #[trigger] power_from(sel, k, i)[j].len() == k,
    decreases k, sel.len() - i,
{
    if 0 <= i < sel.len() {
        lemma_power_lengths(sel, (k - 1) as nat);
        lemma_power_from_lengths(sel, k, i + 1);
        let head = spec_op_power(sel, (k - 1) as nat).map_values(|t: Seq<OpKind>| seq![sel[i]] + t);
        assert forall|j: int| 0 <= j < power_from(sel, k, i).len() implies #[trigger] power_from(
            sel,
            k,
            i,
        )[j].len() == k by {
            if j < head.len() {
                assert(power_from(sel, k, i)[j] == head[j]);
                assert(head[j] == seq![sel[i]] + spec_op_power(sel, (k - 1) as nat)[j]);
                assert(spec_op_power(sel, (k - 1) as nat)[j].len() == k - 1);
            } else {
                assert(power_from(sel, k, i)[j] == power_from(sel, k, i + 1)[j - head.len()]);
            }
        }
    }
}

/// Copies a vector of characters.
pub fn clone_chars(v: &Vec<char>) -> (r: Vec<char>)
    ensures
        r@ == v@,
{
    let mut out: Vec<char> = Vec::new();
    let mut i: usize = 0;
    while i < v.len()
        invariant
            i <= v@.len(),
            out@ == v@.take(i as int),
        decreases v@.len() - i,
    {
        out.push(v[i]);
        proof {
            assert(v@.take(i + 1 as int) =~= v@.take(i as int).push(v@[i as int]));
        }
        i = i + 1;
    }
    proof {
        assert(v@.take(v@.len() as int) =~= v@);
    }
    out
}

/// Copies a vector of faces.
fn clone_faces(v: &Vec<isize>) -> (r: Vec<isize>)
    ensures
        r@ == v@,
{
    let mut out: Vec<isize> = Vec::new();
    let mut i: usize = 0;
    while i < v.len()
        invariant
            i <= v@.len(),
            out@ == v@.take(i as int),
        decreases v@.len() - i,
    {
        out.push(v[i]);
        proof {
            assert(v@.take(i + 1 as int) =~= v@.take(i as int).push(v@[i as int]));
        }
        i = i + 1;
    }
    proof {
        assert(v@.take(v@.len() as int) =~= v@);
    }
    out
}

/// Enumerates every permutation of the configured faces, treated
/// positionally: duplicate face values still yield one permutation per
/// position choice.
pub fn permutations_of(faces: &Vec<isize>) -> (r: Vec<Vec<isize>>)
    ensures
        r@.map_values(|v: Vec<isize>| v@) == spec_permutations(faces@),
    decreases faces@.len(),
{
    let mut acc: Vec<Vec<isize>> = Vec::new();
    if faces.len() == 0 {
        acc.push(Vec::new());
        proof {
            assert(acc@.map_values(|v: Vec<isize>| v@) =~= spec_permutations(faces@));
        }
        return acc;
    }
    let n = faces.len();
    let mut i: usize = 0;
    while i < n
        invariant
            n == faces@.len() >= 1,
            i <= n,
            acc@.map_values(|v: Vec<isize>| v@) + perms_from(faces@, i as int) == spec_permutations(
                faces@,
            ),
        decreases n - i,
    {
        let mut rest = clone_faces(faces);
        let x = rest.remove(i);
        let subs = permutations_of(&rest);
        proof {
            assert(rest@ == faces@.remove(i as int));
            assert(x == faces@[i as int]);
        }
        let ghost prepend = |t: Seq<isize>| seq![faces@[i as int]] + t;
        let ghost head = spec_permutations(faces@.remove(i as int)).map_values(prepend);
        proof {
            assert(perms_from(faces@, i as int) == head + perms_from(faces@, i + 1));
            assert(head.skip(0) =~= head);
            assert((acc@.map_values(|v: Vec<isize>| v@) + head.skip(0)) + perms_from(faces@, i + 1)
                =~= acc@.map_values(|v: Vec<isize>| v@) + perms_from(faces@, i as int));
        }
        let mut j: usize = 0;
        while j < subs.len()
            invariant
                n == faces@.len() >= 1,
                i < n,
                j <= subs@.len(),
                x == faces@[i as int],
                subs@.map_values(|v: Vec<isize>| v@) == spec_permutations(faces@.remove(i as int)),
                head == spec_permutations(faces@.remove(i as int)).map_values(prepend),
                prepend == (|t: Seq<isize>| seq![faces@[i as int]] + t),
                (acc@.map_values(|v: Vec<isize>| v@) + head.skip(j as int)) + perms_from(
                    faces@,
                    i + 1,
                ) == spec_permutations(faces@),
            decreases subs@.len() - j,
        {
            let mut one: Vec<isize> = Vec::new();
            one.push(x);
            let sub = &subs[j];
            let mut t: usize = 0;
            while t < sub.len()
                invariant
                    t <= sub@.len(),
                    x == faces@[i as int],
                    one@ == seq![x] + sub@.take(t as int),
                decreases sub@.len() - t,
            {
                one.push(sub[t]);
                proof {
                    assert(seq![x] + sub@.take(t + 1 as int) =~= (seq![x] + sub@.take(t as int))
                        .push(sub@[t as int]));
                }
                t = t + 1;
            }
            proof {
                assert(sub@.take(sub@.len() as int) =~= sub@);
                assert(subs@.map_values(|v: Vec<isize>| v@)[j as int] == sub@);
                assert(one@ =~= prepend(spec_permutations(faces@.remove(i as int))[j as int]));
                assert(head[j as int] == one@);
            }
            let ghost acc_pre = acc@.map_values(|v: Vec<isize>| v@);
            acc.push(one);
            proof {
                assert(acc@.map_values(|v: Vec<isize>| v@) =~= acc_pre.push(head[j as int]));
                assert(head.skip(j as int) =~= seq![head[j as int]] + head.skip(j + 1));
                assert((acc_pre.push(head[j as int]) + head.skip(j + 1)) + perms_from(
                    faces@,
                    i + 1,
                ) =~= (acc_pre + head.skip(j as int)) + perms_from(faces@, i + 1));
            }
            j = j + 1;
        }
        proof {
            assert(head.skip(subs@.len() as int) =~= Seq::<Seq<isize>>::empty());
            assert(acc@.map_values(|v: Vec<isize>| v@) + head.skip(subs@.len() as int)
                =~= acc@.map_values(|v: Vec<isize>| v@));
        }
        i = i + 1;
    }
    proof {
        assert(acc@.map_values(|v: Vec<isize>| v@) =~= spec_permutations(faces@));
    }
    acc
}

/// Enumerates every assignment of `k` operations drawn, with repetition,
/// from the selected operations.
pub fn op_power(sel: &Vec<OpKind>, k: usize) -> (r: Vec<Vec<OpKind>>)
    ensures
        r@.map_values(|v: Vec<OpKind>| v@) == spec_op_power(sel@, k as nat),
    decreases k,
{
    let mut acc: Vec<Vec<OpKind>> = Vec::new();
    if k == 0 {
        acc.push(Vec::new());
        proof {
            assert(acc@.map_values(|v: Vec<OpKind>| v@) =~= spec_op_power(sel@, k as nat));
        }
        return acc;
    }
    let subs = op_power(sel, k - 1);
    let n = sel.len();
    proof {
        if n == 0 {
            assert(acc@.map_values(|v: Vec<OpKind>| v@) =~= spec_op_power(sel@, k as nat));
        }
    }
    let mut i: usize = 0;
    while i < n
        invariant
            n == sel@.len(),
            k >= 1,
            i <= n,
            subs@.map_values(|v: Vec<OpKind>| v@) == spec_op_power(sel@, (k - 1) as nat),
            acc@.map_values(|v: Vec<OpKind>| v@) + power_from(sel@, k as nat, i as int)
                == spec_op_power(sel@, k as nat),
        decreases n - i,
    {
        let x = sel[i];
        let ghost prepend = |t: Seq<OpKind>| seq![sel@[i as int]] + t;
        let ghost head = spec_op_power(sel@, (k - 1) as nat).map_values(prepend);
        proof {
            assert(power_from(sel@, k as nat, i as int) == head + power_from(
                sel@,
                k as nat,
                i + 1,
            ));
            assert(head.skip(0) =~= head);
            assert((acc@.map_values(|v: Vec<OpKind>| v@) + head.skip(0)) + power_from(
                sel@,
                k as nat,
                i + 1,
            ) =~= acc@.map_values(|v: Vec<OpKind>| v@) + power_from(sel@, k as nat, i as int));
        }
        let mut j: usize = 0;
        while j < subs.len()
            invariant
                n == sel@.len(),
                k >= 1,
                i < n,
                j <= subs@.len(),
                x == sel@[i as int],
                subs@.map_values(|v: Vec<OpKind>| v@) == spec_op_power(sel@, (k - 1) as nat),
                head == spec_op_power(sel@, (k - 1) as nat).map_values(prepend),
                prepend == (|t: Seq<OpKind>| seq![sel@[i as int]] + t),
                (acc@.map_values(|v: Vec<OpKind>| v@) + head.skip(j as int)) + power_from(
                    sel@,
                    k as nat,
                    i + 1,
                ) == spec_op_power(sel@, k as nat),
            decreases subs@.len() - j,
        {
            let mut one: Vec<OpKind> = Vec::new();
            one.push(x);
            let sub = &subs[j];
            let mut t: usize = 0;
            while t < sub.len()
                invariant
                    t <= sub@.len(),
                    x == sel@[i as int],
                    one@ == seq![x] + sub@.take(t as int),
                decreases sub@.len() - t,
            {
                one.push(sub[t]);
                proof {
                    assert(seq![x] + sub@.take(t + 1 as int) =~= (seq![x] + sub@.take(t as int))
                        .push(sub@[t as int]));
                }
                t = t + 1;
            }
            proof {
                assert(sub@.take(sub@.len() as int) =~= sub@);
                assert(subs@.map_values(|v: Vec<OpKind>| v@)[j as int] == sub@);
                assert(one@ =~= prepend(spec_op_power(sel@, (k - 1) as nat)[j as int]));
                assert(head[j as int] == one@);
            }
            let ghost acc_pre = acc@.map_values(|v: Vec<OpKind>| v@);
            acc.push(one);
            proof {
                assert(acc@.map_values(|v: Vec<OpKind>| v@) =~= acc_pre.push(head[j as int]));
                assert(head.skip(j as int) =~= seq![head[j as int]] + head.skip(j + 1));
                assert((acc_pre.push(head[j as int]) + head.skip(j + 1)) + power_from(
                    sel@,
                    k as nat,
                    i + 1,
                ) =~= (acc_pre + head.skip(j as int)) + power_from(sel@, k as nat, i + 1));
            }
            j = j + 1;
        }
        proof {
            assert(head.skip(subs@.len() as int) =~= Seq::<Seq<OpKind>>::empty());
            assert(acc@.map_values(|v: Vec<OpKind>| v@) + head.skip(subs@.len() as int)
                =~= acc@.map_values(|v: Vec<OpKind>| v@));
        }
        i = i + 1;
    }
    acc
}

/// The expansion of one catalog entry under a selection: itself when its
/// identifier was selected, nothing otherwise.
pub open spec fn selected_g(ids: Seq<Seq<char>>) -> spec_fn(OpKind) -> Seq<OpKind> {
    |k: OpKind|
        if ids.contains(op_id(k)) {
            seq![k]
        } else {
            Seq::empty()
        }
}

/// The selected operations, in catalog order.
pub open spec fn selected_ops(ids: Seq<Seq<char>>) -> Seq<OpKind> {
    concat_map(catalog_list(), selected_g(ids))
}

/// Whether the configured identifiers name the given operation.
fn contains_id(ids: &Vec<String>, target: &String) -> (r: bool)
    ensures
        r == ids@.map_values(|s: String| s@).contains(target@),
{
    let ghost idsv = ids@.map_values(|s: String| s@);
    let mut i: usize = 0;
    while i < ids.len()
        invariant
            i <= ids@.len(),
            idsv == ids@.map_values(|s: String| s@),
            forall|j: int| 0 <= j < i ==> #[trigger] idsv[j] != target@,
        decreases ids@.len() - i,
    {
        if ids[i].eq(target) {
            proof {
                assert(idsv[i as int] == target@);
            }
            return true;
        }
        i = i + 1;
    }
    proof {
        assert(!idsv.contains(target@));
    }
    false
}

/// The owned identifier text of an operation.
fn op_id_string(k: OpKind) -> (r: String)
    ensures
        r@ == op_id(k),
{
    match k {
        OpKind::Plus => "plus".to_owned(),
        OpKind::Minus => "minus".to_owned(),
        OpKind::Multiply => "multiply".to_owned(),
        OpKind::Divide => "divide".to_owned(),
        OpKind::Power => "power".to_owned(),
        OpKind::Root => "root".to_owned(),
        OpKind::Modulo => "modulo".to_owned(),
    }
}

/// The catalog entries whose identifiers were selected, in catalog order.
fn selected_operations(config: &SolverConfig) -> (r: Vec<OpKind>)
    ensures
        r@ == selected_ops(config@.operation_ids),
{
    let kinds: [OpKind; 7] = [
        OpKind::Plus,
        OpKind::Minus,
        OpKind::Multiply,
        OpKind::Divide,
        OpKind::Power,
        OpKind::Root,
        OpKind::Modulo,
    ];
    let ghost idsv = config@.operation_ids;
    let ghost g = selected_g(idsv);
    let mut sel: Vec<OpKind> = Vec::new();
    let mut i: usize = 0;
    proof {
        assert(catalog_list().take(0) =~= Seq::<OpKind>::empty());
    }
    while i < 7
        invariant
            i <= 7,
            idsv == config@.operation_ids,
            g == selected_g(idsv),
            kinds@ =~= catalog_list(),
            sel@ == concat_map(catalog_list().take(i as int), g),
        decreases 7 - i,
    {
        let k = kinds[i];
        let target = op_id_string(k);
        let ghost pre = sel@;
        if contains_id(&config.operation_ids, &target) {
            sel.push(k);
            proof {
                assert(g(k) =~= seq![k]);
                assert(sel@ =~= pre + g(k));
            }
        } else {
            proof {
                assert(g(k) =~= Seq::<OpKind>::empty());
                assert(sel@ =~= pre + g(k));
            }
        }
        proof {
            lemma_concat_map_push(catalog_list().take(i as int), g, catalog_list()[i as int]);
            assert(catalog_list().take(i + 1 as int) =~= catalog_list().take(i as int).push(
                catalog_list()[i as int],
            ));
        }
        i = i + 1;
    }
    proof {
        assert(catalog_list().take(7) =~= catalog_list());
    }
    sel
}

/// The record a finished evaluation contributes: nothing if the candidate
/// failed, its total is not an integer, or its total is out of range;
/// otherwise the single result built from it, whose full text is
/// `total = equation` and whose sortable key substitutes the punctuation of
/// the same text with the total padded to at least four digits.
pub open spec fn rec_of(
    c: ConfigV,
    m: spec_fn(FloatQuery) -> FloatAnswer,
    out: EvalOut,
) -> Seq<ResultV> {
    match out {
        EvalOut::Failed(_) => Seq::empty(),
        EvalOut::Done(ev) => {
            if !m_flag(m, FloatQuery::IsIntegral(ev.total_bits)) {
                Seq::empty()
            } else if !m_flag(m, FloatQuery::AtLeast(ev.total_bits, c.min_total)) {
                Seq::empty()
            } else if !m_flag(m, FloatQuery::AtMost(ev.total_bits, c.max_total)) {
                Seq::empty()
            } else {
                let t = m_int(m, FloatQuery::ToTotal(ev.total_bits));
                let digits = dec_digits(t as int);
                seq![
                    ResultV {
                        total: t,
                        equation: ev.equation,
                        full_equation: digits + " = "@ + ev.equation,
                        sortable_equation: sortable_of(pad4(digits) + " = "@ + ev.equation),
                    },
                ]
            }
        },
    }
}

/// The faces of one permutation as bare trees.
pub open spec fn leaves_of(p: Seq<isize>) -> Seq<PairingEntry> {
    p.map_values(|v: isize| PairingEntry::Single(v))
}

/// What one tree contributes under one assignment.
pub open spec fn g_asg(t: PairingEntry, c: ConfigV, m: spec_fn(FloatQuery) -> FloatAnswer) -> spec_fn(
    Seq<OpKind>,
) -> Seq<ResultV> {
    |a: Seq<OpKind>| rec_of(c, m, eval_spec(t, a, true, m))
}

/// What one tree contributes over all assignments.
pub open spec fn g_tree(
    asgs: Seq<Seq<OpKind>>,
    c: ConfigV,
    m: spec_fn(FloatQuery) -> FloatAnswer,
) -> spec_fn(PairingEntry) -> Seq<ResultV> {
    |t: PairingEntry| concat_map(asgs, g_asg(t, c, m))
}

/// The assignments a configuration induces.
pub open spec fn asgs_of(c: ConfigV) -> Seq<Seq<OpKind>> {
    spec_op_power(selected_ops(c.operation_ids), (c.faces.len() - 1) as nat)
}

/// What one permutation contributes: every parenthesization of it, expanded
/// over every assignment.
pub open spec fn g_perm(c: ConfigV, m: spec_fn(FloatQuery) -> FloatAnswer) -> spec_fn(
    Seq<isize>,
) -> Seq<ResultV> {
    |p: Seq<isize>| concat_map(spec_pairings(leaves_of(p)), g_tree(asgs_of(c), c, m))
}

/// Every surviving candidate, in generation order, before sorting.
pub open spec fn candidates(c: ConfigV, m: spec_fn(FloatQuery) -> FloatAnswer) -> Seq<ResultV> {
    concat_map(spec_permutations(c.faces), g_perm(c, m))
}

/// An internal result record whose texts are still character vectors.
struct Rec {
    total: u64,
    equation: Vec<char>,
    full: Vec<char>,
    sortable: Vec<char>,
}

/// The mathematical content of a [`Rec`].
spec fn rec_v(r: Rec) -> ResultV {
    ResultV {
        total: r.total,
        equation: r.equation@,
        full_equation: r.full@,
        sortable_equation: r.sortable@,
    }
}

/// The ` = ` separator of a full equation.
fn eq_separator() -> (r: Vec<char>)
    ensures
        r@ == " = "@,
{
    let mut v: Vec<char> = Vec::new();
    v.push(' ');
    v.push('=');
    v.push(' ');
    proof {
        reveal_strlit(" = ");
        assert(v@ =~= " = "@);
    }
    v
}

/// Applies the filter and record-building stage to one finished evaluation.
fn build_record<F: Fn(FloatQuery) -> FloatAnswer>(
    ir: &crate::eval::IntermediateResult,
    config: &SolverConfig,
    oracle: &F,
) -> (r: Option<Rec>)
    requires
        oracle_callable(oracle),
    ensures
        forall|m: spec_fn(FloatQuery) -> FloatAnswer|
            #[trigger] oracle_models(oracle, m) ==> (match r {
                Some(rec) => rec_of(config@, m, EvalOut::Done(ir@)) == seq![rec_v(rec)],
                None => rec_of(config@, m, EvalOut::Done(ir@)) == Seq::<ResultV>::empty(),
            }),
{
    let bits = ir.total_bits;
    if !ask_flag(oracle, FloatQuery::IsIntegral(bits)) {
        return None;
    }
    if !ask_flag(oracle, FloatQuery::AtLeast(bits, config.minTotal)) {
        return None;
    }
    if !ask_flag(oracle, FloatQuery::AtMost(bits, config.maxTotal)) {
        return None;
    }
    let t = ask_int(oracle, FloatQuery::ToTotal(bits));
    let digits = u64_to_digits(t);
    let sep = eq_separator();
    let mut full = clone_chars(&digits);
    push_chars(&mut full, &sep);
    push_chars(&mut full, &ir.equation);
    let mut padded = pad4_digits(&digits);
    push_chars(&mut padded, &sep);
    push_chars(&mut padded, &ir.equation);
    let sortable = sortable_chars(&padded);
    let equation = clone_chars(&ir.equation);
    let rec = Rec { total: t, equation, full, sortable };
    proof {
        assert forall|m: spec_fn(FloatQuery) -> FloatAnswer|
            #[trigger] oracle_models(oracle, m) implies (match Some(rec) {
            Some(rec) => rec_of(config@, m, EvalOut::Done(ir@)) == seq![rec_v(rec)],
            None => rec_of(config@, m, EvalOut::Done(ir@)) == Seq::<ResultV>::empty(),
        }) by {
            assert(t == m_int(m, FloatQuery::ToTotal(ir@.total_bits)));
            let spec_digits = dec_digits(t as int);
            assert(full@ =~= spec_digits + " = "@ + ir@.equation);
            assert(padded@ =~= pad4(spec_digits) + " = "@ + ir@.equation);
            assert(rec_of(config@, m, EvalOut::Done(ir@)) =~= seq![rec_v(rec)]);
        }
    }
    Some(rec)
}

/// Evaluates one tree under every assignment and keeps the surviving
/// records.
fn recs_for_tree<F: Fn(FloatQuery) -> FloatAnswer>(
    tree: &PairingEntry,
    asgs: &Vec<Vec<OpKind>>,
    config: &SolverConfig,
    oracle: &F,
) -> (r: Vec<Rec>)
    requires
        oracle_callable(oracle),
        forall|j: int| 0 <= j < asgs@.len() ==> pair_height(*tree) <= #[trigger] asgs@[j]@.len(),
    ensures
        forall|m: spec_fn(FloatQuery) -> FloatAnswer|
            #[trigger] oracle_models(oracle, m) ==> r@.map_values(|x: Rec| rec_v(x)) == concat_map(
                asgs@.map_values(|a: Vec<OpKind>| a@),
                g_asg(*tree, config@, m),
            ),
{
    let ghost asgsv = asgs@.map_values(|a: Vec<OpKind>| a@);
    let mut acc: Vec<Rec> = Vec::new();
    let mut j: usize = 0;
    proof {
        assert(asgsv.take(0) =~= Seq::<Seq<OpKind>>::empty());
    }
    while j < asgs.len()
        invariant
            j <= asgs@.len(),
            asgsv == asgs@.map_values(|a: Vec<OpKind>| a@),
            oracle_callable(oracle),
            forall|jj: int|
                0 <= jj < asgs@.len() ==> pair_height(*tree) <= #[trigger] asgs@[jj]@.len(),
            forall|m: spec_fn(FloatQuery) -> FloatAnswer|
                #[trigger] oracle_models(oracle, m) ==> acc@.map_values(|x: Rec| rec_v(x))
                    == concat_map(asgsv.take(j as int), g_asg(*tree, config@, m)),
        decreases asgs@.len() - j,
    {
        let ghost acc_pre = acc@.map_values(|x: Rec| rec_v(x));
        let outcome = calculate_result(tree, &asgs[j], true, oracle);
        match outcome {
            Ok(ir) => {
                match build_record(&ir, config, oracle) {
                    Some(rec) => {
                        acc.push(rec);
                    },
                    None => {},
                }
            },
            Err(_) => {},
        }
        proof {
            assert forall|m: spec_fn(FloatQuery) -> FloatAnswer|
                #[trigger] oracle_models(oracle, m) implies acc@.map_values(|x: Rec| rec_v(x))
                == concat_map(asgsv.take(j + 1), g_asg(*tree, config@, m)) by {
                lemma_concat_map_push(asgsv.take(j as int), g_asg(*tree, config@, m), asgsv[j as int]);
                assert(asgsv.take(j + 1) =~= asgsv.take(j as int).push(asgsv[j as int]));
                assert(asgsv[j as int] == asgs@[j as int]@);
                let expansion = g_asg(*tree, config@, m)(asgsv[j as int]);
                assert(expansion == rec_of(config@, m, eval_spec(*tree, asgs@[j as int]@, true, m)));
                assert(acc@.map_values(|x: Rec| rec_v(x)) =~= acc_pre + expansion);
            }
        }
        j = j + 1;
    }
    proof {
        assert(asgsv.take(asgs@.len() as int) =~= asgsv);
    }
    acc
}

/// A tree has as many faces as its fringe has entries.
proof fn lemma_leaf_count_is_fringe_len(t: PairingEntry)
    ensures
        leaf_count(t) == fringe(t).len(),
    decreases t,
{
    match t {
        PairingEntry::Single(_) => {},
        PairingEntry::Pair { left, right } => {
            lemma_leaf_count_is_fringe_len(*left);
            lemma_leaf_count_is_fringe_len(*right);
        },
    }
}

/// The fringe of a permutation's bare trees is the permutation itself.
proof fn lemma_fringe_of_leaves(p: Seq<isize>)
    ensures
        fringe_seq(leaves_of(p)) == p,
    decreases p.len(),
{
    if p.len() == 0 {
        assert(fringe_seq(leaves_of(p)) =~= p);
    } else {
        lemma_fringe_of_leaves(p.drop_first());
        assert(leaves_of(p).drop_first() =~= leaves_of(p.drop_first()));
        assert(leaves_of(p)[0] == PairingEntry::Single(p[0]));
        assert(fringe(leaves_of(p)[0]) =~= seq![p[0]]);
        assert(fringe_seq(leaves_of(p)) =~= seq![p[0]] + p.drop_first());
        assert(seq![p[0]] + p.drop_first() =~= p);
    }
}

/// The faces of one permutation as a vector of bare trees.
fn to_leaves(perm: &Vec<isize>) -> (r: Vec<PairingEntry>)
    ensures
        r@ == leaves_of(perm@),
{
    let mut v: Vec<PairingEntry> = Vec::new();
    let mut i: usize = 0;
    while i < perm.len()
        invariant
            i <= perm@.len(),
            v@ == leaves_of(perm@.take(i as int)),
        decreases perm@.len() - i,
    {
        v.push(PairingEntry::Single(perm[i]));
        proof {
            assert(leaves_of(perm@.take(i + 1 as int)) =~= leaves_of(perm@.take(i as int)).push(
                PairingEntry::Single(perm@[i as int]),
            ));
        }
        i = i + 1;
    }
    proof {
        assert(perm@.take(perm@.len() as int) =~= perm@);
        assert(leaves_of(perm@.take(perm@.len() as int)) =~= leaves_of(perm@));
    }
    v
}

/// Over one fixed leaf order, every generated tree shape uses every face
/// exactly once, in the original left-to-right order.
pub proof fn lemma_pairings_of_order_keep_faces(p: Seq<isize>)
    requires
        p.len() >= 1,
    ensures
        forall|j: int|
            0 <= j < spec_pairings(leaves_of(p)).len() ==> fringe(
                #[trigger] spec_pairings(leaves_of(p))[j],
            ) == p && leaf_count(spec_pairings(leaves_of(p))[j]) == p.len(),
{
    lemma_pairings_preserve_fringe(leaves_of(p));
    lemma_fringe_of_leaves(p);
    assert forall|j: int| 0 <= j < spec_pairings(leaves_of(p)).len() implies fringe(
        #[trigger] spec_pairings(leaves_of(p))[j],
    ) == p && leaf_count(spec_pairings(leaves_of(p))[j]) == p.len() by {
        assert(fringe(spec_pairings(leaves_of(p))[j]) == fringe_seq(leaves_of(p)));
        lemma_leaf_count_is_fringe_len(spec_pairings(leaves_of(p))[j]);
    }
}

/// Expands one permutation: every parenthesization of it, each evaluated
/// under every assignment.
fn recs_for_perm<F: Fn(FloatQuery) -> FloatAnswer>(
    perm: &Vec<isize>,
    asgs: &Vec<Vec<OpKind>>,
    config: &SolverConfig,
    oracle: &F,
) -> (r: Vec<Rec>)
    requires
        oracle_callable(oracle),
        perm@.len() >= 1,
        asgs@.map_values(|a: Vec<OpKind>| a@) == asgs_of(config@),
        forall|j: int| 0 <= j < asgs@.len() ==> #[trigger] asgs@[j]@.len() >= perm@.len() - 1,
    ensures
        forall|m: spec_fn(FloatQuery) -> FloatAnswer|
            #[trigger] oracle_models(oracle, m) ==> r@.map_values(|x: Rec| rec_v(x)) == g_perm(
                config@,
                m,
            )(perm@),
{
    let leaves = to_leaves(perm);
    let trees = get_pairing_permutations(&leaves);
    let ghost treesv = spec_pairings(leaves_of(perm@));
    proof {
        lemma_pairings_preserve_fringe(leaves@);
        lemma_fringe_of_leaves(perm@);
    }
    let mut acc: Vec<Rec> = Vec::new();
    let mut i: usize = 0;
    proof {
        assert(treesv.take(0) =~= Seq::<PairingEntry>::empty());
    }
    while i < trees.len()
        invariant
            i <= trees@.len(),
            trees@ == treesv,
            treesv == spec_pairings(leaves_of(perm@)),
            perm@.len() >= 1,
            oracle_callable(oracle),
            asgs@.map_values(|a: Vec<OpKind>| a@) == asgs_of(config@),
            forall|j: int| 0 <= j < asgs@.len() ==> #[trigger] asgs@[j]@.len() >= perm@.len() - 1,
            forall|j: int|
                0 <= j < treesv.len() ==> #[trigger] fringe(treesv[j]) == fringe_seq(
                    leaves_of(perm@),
                ),
            fringe_seq(leaves_of(perm@)) == perm@,
            forall|m: spec_fn(FloatQuery) -> FloatAnswer|
                #[trigger] oracle_models(oracle, m) ==> acc@.map_values(|x: Rec| rec_v(x))
                    == concat_map(
                    treesv.take(i as int),
                    g_tree(asgs_of(config@), config@, m),
                ),
        decreases trees@.len() - i,
    {
        let tree = &trees[i];
        proof {
            assert(fringe(treesv[i as int]) == perm@);
            lemma_leaf_count_is_fringe_len(treesv[i as int]);
            lemma_height_lt_leaves(treesv[i as int]);
            assert(pair_height(*tree) < perm@.len());
            assert forall|j: int| 0 <= j < asgs@.len() implies pair_height(*tree)
                <= #[trigger] asgs@[j]@.len() by {
                assert(asgs@[j]@.len() >= perm@.len() - 1);
            }
        }
        let ghost acc_pre = acc@.map_values(|x: Rec| rec_v(x));
        let mut one = recs_for_tree(tree, asgs, config, oracle);
        let ghost onev = one@.map_values(|x: Rec| rec_v(x));
        acc.append(&mut one);
        proof {
            assert forall|m: spec_fn(FloatQuery) -> FloatAnswer|
                #[trigger] oracle_models(oracle, m) implies acc@.map_values(|x: Rec| rec_v(x))
                == concat_map(treesv.take(i + 1), g_tree(asgs_of(config@), config@, m)) by {
                lemma_concat_map_push(
                    treesv.take(i as int),
                    g_tree(asgs_of(config@), config@, m),
                    treesv[i as int],
                );
                assert(treesv.take(i + 1) =~= treesv.take(i as int).push(treesv[i as int]));
                assert(onev == concat_map(
                    asgs@.map_values(|a: Vec<OpKind>| a@),
                    g_asg(treesv[i as int], config@, m),
                ));
                assert(g_tree(asgs_of(config@), config@, m)(treesv[i as int]) == concat_map(
                    asgs_of(config@),
                    g_asg(treesv[i as int], config@, m),
                ));
                assert(acc@.map_values(|x: Rec| rec_v(x)) =~= acc_pre + onev);
            }
        }
        i = i + 1;
    }
    proof {
        assert(treesv.take(trees@.len() as int) =~= treesv);
        assert forall|m: spec_fn(FloatQuery) -> FloatAnswer|
            #[trigger] oracle_models(oracle, m) implies acc@.map_values(|x: Rec| rec_v(x)) == g_perm(
            config@,
            m,
        )(perm@) by {
            assert(g_perm(config@, m)(perm@) == concat_map(
                spec_pairings(leaves_of(perm@)),
                g_tree(asgs_of(config@), config@, m),
            ));
        }
    }
    acc
}

/// `x` inserted into `s` after every entry whose key is at most `x`'s key,
/// so that insertion keeps the sort stable.
pub open spec fn insert_sorted(s: Seq<ResultV>, x: ResultV) -> Seq<ResultV>
    decreases s.len(),
{
    if s.len() == 0 {
        seq![x]
    } else if lex_le(s.last().sortable_equation, x.sortable_equation) {
        s.push(x)
    } else {
        insert_sorted(s.drop_last(), x).push(s.last())
    }
}

/// The records sorted by their sortable key, ascending and stable.
pub open spec fn sort_recs(s: Seq<ResultV>) -> Seq<ResultV>
    decreases s.len(),
{
    if s.len() == 0 {
        Seq::empty()
    } else {
        insert_sorted(sort_recs(s.drop_last()), s.last())
    }
}

/// The records with consecutive structurally-equal entries collapsed to the
/// first of each run.
pub open spec fn dedup_recs(s: Seq<ResultV>) -> Seq<ResultV>
    decreases s.len(),
{
    if s.len() <= 1 {
        s
    } else if s.last() == s[s.len() - 2] {
        dedup_recs(s.drop_last())
    } else {
        dedup_recs(s.drop_last()).push(s.last())
    }
}

/// Inserting at the position found by scanning back over the entries whose
/// keys are not at most `x`'s key produces exactly [`insert_sorted`].
proof fn lemma_insert_at(s: Seq<ResultV>, x: ResultV, p: int)
    requires
        0 <= p <= s.len(),
        forall|j: int|
            p <= j < s.len() ==> !lex_le(#[trigger] s[j].sortable_equation, x.sortable_equation),
        p > 0 ==> lex_le(s[p - 1].sortable_equation, x.sortable_equation),
    ensures
        insert_sorted(s, x) == s.take(p) + seq![x] + s.skip(p),
    decreases s.len(),
{
    if s.len() == 0 {
        assert(insert_sorted(s, x) =~= s.take(p) + seq![x] + s.skip(p));
    } else if lex_le(s.last().sortable_equation, x.sortable_equation) {
        assert(p == s.len());
        assert(s.take(p) =~= s);
        assert(s.skip(p) =~= Seq::<ResultV>::empty());
        assert(insert_sorted(s, x) =~= s.take(p) + seq![x] + s.skip(p));
    } else {
        assert(p <= s.len() - 1);
        lemma_insert_at(s.drop_last(), x, p);
        assert(s.drop_last().take(p) =~= s.take(p));
        assert(insert_sorted(s, x) == (s.drop_last().take(p) + seq![x] + s.drop_last().skip(p))
            .push(s.last()));
        assert((s.take(p) + seq![x] + s.drop_last().skip(p)).push(s.last()) =~= s.take(p) + seq![x]
            + s.skip(p));
    }
}

/// Copies a record.
fn clone_rec(r: &Rec) -> (out: Rec)
    ensures
        rec_v(out) == rec_v(*r),
{
    Rec {
        total: r.total,
        equation: clone_chars(&r.equation),
        full: clone_chars(&r.full),
        sortable: clone_chars(&r.sortable),
    }
}

/// Whether two records are structurally equal in all four fields.
fn rec_eq(a: &Rec, b: &Rec) -> (r: bool)
    ensures
        r == (rec_v(*a) == rec_v(*b)),
{
    if a.total != b.total {
        return false;
    }
    if !crate::text::chars_eq(&a.equation, &b.equation) {
        return false;
    }
    if !crate::text::chars_eq(&a.full, &b.full) {
        return false;
    }
    crate::text::chars_eq(&a.sortable, &b.sortable)
}

/// Sorts the records by their sortable key, ascending and stable.
fn sort_records(recs: &Vec<Rec>) -> (r: Vec<Rec>)
    ensures
        r@.map_values(|x: Rec| rec_v(x)) == sort_recs(recs@.map_values(|x: Rec| rec_v(x))),
{
    let ghost sv = recs@.map_values(|x: Rec| rec_v(x));
    let mut out: Vec<Rec> = Vec::new();
    let mut i: usize = 0;
    proof {
        assert(sv.take(0) =~= Seq::<ResultV>::empty());
    }
    while i < recs.len()
        invariant
            i <= recs@.len(),
            sv == recs@.map_values(|x: Rec| rec_v(x)),
            out@.map_values(|x: Rec| rec_v(x)) == sort_recs(sv.take(i as int)),
        decreases recs@.len() - i,
    {
        let x = clone_rec(&recs[i]);
        let ghost outv = out@.map_values(|x: Rec| rec_v(x));
        let mut k: usize = out.len();
        while k > 0 && !lex_le_chars(&out[k - 1].sortable, &x.sortable)
            invariant
                k <= out@.len(),
                outv == out@.map_values(|x: Rec| rec_v(x)),
                rec_v(x) == sv[i as int],
                i < sv.len(),
                forall|j: int|
                    k <= j < outv.len() ==> !lex_le(
                        #[trigger] outv[j].sortable_equation,
                        sv[i as int].sortable_equation,
                    ),
            decreases k,
        {
            proof {
                assert(outv[k - 1].sortable_equation == out@[k - 1].sortable@);
            }
            k = k - 1;
        }
        proof {
            if k > 0 {
                assert(outv[k - 1].sortable_equation == out@[k - 1].sortable@);
            }
            lemma_insert_at(outv, sv[i as int], k as int);
        }
        out.insert(k, x);
        proof {
            assert(out@.map_values(|x: Rec| rec_v(x)) =~= outv.take(k as int) + seq![sv[i as int]]
                + outv.skip(k as int));
            assert(sv.take(i + 1).drop_last() =~= sv.take(i as int));
            assert(sv.take(i + 1).last() == sv[i as int]);
            assert(sort_recs(sv.take(i + 1)) == insert_sorted(sort_recs(sv.take(i as int)), sv[i as int]));
        }
        i = i + 1;
    }
    proof {
        assert(sv.take(recs@.len() as int) =~= sv);
    }
    out
}

/// Collapses runs of structurally-equal consecutive records.
fn dedup_records(recs: &Vec<Rec>) -> (r: Vec<Rec>)
    ensures
        r@.map_values(|x: Rec| rec_v(x)) == dedup_recs(recs@.map_values(|x: Rec| rec_v(x))),
{
    let ghost sv = recs@.map_values(|x: Rec| rec_v(x));
    let mut out: Vec<Rec> = Vec::new();
    let mut i: usize = 0;
    proof {
        assert(sv.take(0) =~= Seq::<ResultV>::empty());
    }
    while i < recs.len()
        invariant
            i <= recs@.len(),
            sv == recs@.map_values(|x: Rec| rec_v(x)),
            out@.map_values(|x: Rec| rec_v(x)) == dedup_recs(sv.take(i as int)),
        decreases recs@.len() - i,
    {
        let ghost outv = out@.map_values(|x: Rec| rec_v(x));
        let keep: bool = if i == 0 {
            true
        } else {
            !rec_eq(&recs[i], &recs[i - 1])
        };
        if keep {
            out.push(clone_rec(&recs[i]));
            proof {
                assert(out@.map_values(|x: Rec| rec_v(x)) =~= outv.push(sv[i as int]));
            }
        }
        proof {
            let t = sv.take(i + 1);
            assert(t.drop_last() =~= sv.take(i as int));
            assert(t.last() == sv[i as int]);
            if i == 0 {
                assert(dedup_recs(t) =~= seq![sv[0]]);
                assert(out@.map_values(|x: Rec| rec_v(x)) =~= outv.push(sv[0]));
                assert(outv =~= Seq::<ResultV>::empty());
                assert(outv.push(sv[0]) =~= seq![sv[0]]);
            } else {
                assert(t[t.len() - 2] == sv[i - 1]);
            }
        }
        i = i + 1;
    }
    proof {
        assert(sv.take(recs@.len() as int) =~= sv);
    }
    out
}

/// The first configured identifier that is not in the catalog, if any.
pub open spec fn first_invalid_id(ids: Seq<Seq<char>>) -> Option<Seq<char>>
    decreases ids.len(),
{
    if ids.len() == 0 {
        None
    } else if spec_lookup(ids[0]) is None {
        Some(ids[0])
    } else {
        first_invalid_id(ids.drop_first())
    }
}

/// The failure text when the configuration names an unknown operation.
pub open spec fn invalid_op_message(id: Seq<char>) -> Seq<char> {
    "Invalid operation "@ + id
}

/// Checks that every configured operation identifier is in the catalog;
/// fails, naming the first identifier that is not.
pub fn validate_solver_config(config: &SolverConfig) -> (r: Result<(), String>)
    ensures
        match first_invalid_id(config@.operation_ids) {
            None => r is Ok,
            Some(id) => r is Err && r->Err_0@ == invalid_op_message(id),
        },
{
    let ghost idsv = config@.operation_ids;
    let mut i: usize = 0;
    proof {
        assert(idsv.skip(0) =~= idsv);
    }
    while i < config.operation_ids.len()
        invariant
            i <= config.operation_ids@.len(),
            idsv == config@.operation_ids,
            idsv.len() == config.operation_ids@.len(),
            first_invalid_id(idsv) == first_invalid_id(idsv.skip(i as int)),
        decreases config.operation_ids@.len() - i,
    {
        proof {
            assert(idsv.skip(i as int)[0] == idsv[i as int]);
            assert(idsv[i as int] == config.operation_ids@[i as int]@);
        }
        match crate::ops::lookup_op(&config.operation_ids[i]) {
            Some(_) => {
                proof {
                    assert(idsv.skip(i as int).drop_first() =~= idsv.skip(i + 1));
                }
            },
            None => {
                let mut msg = string_to_chars("Invalid operation ");
                let id_chars = string_to_chars(config.operation_ids[i].as_str());
                push_chars(&mut msg, &id_chars);
                proof {
                    assert(first_invalid_id(idsv.skip(i as int)) == Some(idsv[i as int]));
                }
                return Err(chars_to_string(&msg));
            },
        }
        i = i + 1;
    }
    proof {
        assert(idsv.skip(idsv.len() as int).len() == 0);
    }
    Ok(())
}

/// What one solve returns whenever its arithmetic oracle follows the model
/// `m` and its configuration is valid: nothing when fewer than two faces or
/// no operations are configured; otherwise every surviving candidate, sorted
/// by its sortable key and with consecutive duplicates removed.
pub open spec fn solve_spec(c: ConfigV, m: spec_fn(FloatQuery) -> FloatAnswer) -> Seq<ResultV> {
    if c.faces.len() < 2 || c.operation_ids.len() == 0 {
        Seq::empty()
    } else {
        dedup_recs(sort_recs(candidates(c, m)))
    }
}

/// Runs the whole pipeline: fails, before any enumeration, exactly when the
/// configuration names an operation outside the catalog; otherwise returns
/// the sorted, deduplicated results that [`solve_spec`] describes, for every
/// model the arithmetic oracle follows.
pub fn calculate_results<F: Fn(FloatQuery) -> FloatAnswer>(
    config: &SolverConfig,
    oracle: &F,
) -> (r: Result<Vec<CalculateResult>, String>)
    requires
        oracle_callable(oracle),
    ensures
        match first_invalid_id(config@.operation_ids) {
            Some(id) => r is Err && r->Err_0@ == invalid_op_message(id),
            None => r is Ok && forall|m: spec_fn(FloatQuery) -> FloatAnswer|
                #[trigger] oracle_models(oracle, m) ==> r->Ok_0@.map_values(
                    |x: CalculateResult| x@,
                ) == solve_spec(config@, m),
        },
{
    match validate_solver_config(config) {
        Ok(_) => {},
        Err(e) => {
            return Err(e);
        },
    }
    if config.faces.len() < 2 || config.operation_ids.len() == 0 {
        let empty: Vec<CalculateResult> = Vec::new();
        proof {
            assert(empty@.map_values(|x: CalculateResult| x@) =~= Seq::<ResultV>::empty());
        }
        return Ok(empty);
    }
    let sel = selected_operations(config);
    let asgs = op_power(&sel, config.faces.len() - 1);
    let ghost asgsv = asgs@.map_values(|a: Vec<OpKind>| a@);
    proof {
        assert((config.faces@.len() - 1) as nat == (config@.faces.len() - 1) as nat);
        assert(asgs@.map_values(|a: Vec<OpKind>| a@) == asgs_of(config@));
        lemma_power_lengths(sel@, (config@.faces.len() - 1) as nat);
    }
    let perms = permutations_of(&config.faces);
    let ghost permsv = spec_permutations(config@.faces);
    proof {
        lemma_perm_lengths(config.faces@);
    }
    let mut gathered: Vec<Rec> = Vec::new();
    let mut i: usize = 0;
    proof {
        assert(permsv.take(0) =~= Seq::<Seq<isize>>::empty());
    }
    while i < perms.len()
        invariant
            i <= perms@.len(),
            oracle_callable(oracle),
            config@.faces.len() >= 2,
            config@.operation_ids.len() >= 1,
            perms@.map_values(|v: Vec<isize>| v@) == permsv,
            permsv == spec_permutations(config@.faces),
            asgs@.map_values(|a: Vec<OpKind>| a@) == asgs_of(config@),
            forall|j: int|
                0 <= j < permsv.len() ==> #[trigger] permsv[j].len() == config@.faces.len(),
            asgsv == asgs@.map_values(|a: Vec<OpKind>| a@),
            forall|j: int|
                0 <= j < asgsv.len() ==> #[trigger] asgsv[j].len() == config@.faces.len() - 1,
            forall|m: spec_fn(FloatQuery) -> FloatAnswer|
                #[trigger] oracle_models(oracle, m) ==> gathered@.map_values(|x: Rec| rec_v(x))
                    == concat_map(permsv.take(i as int), g_perm(config@, m)),
        decreases perms@.len() - i,
    {
        let perm = &perms[i];
        proof {
            assert(perms@.map_values(|v: Vec<isize>| v@)[i as int] == perm@);
            assert(perm@.len() == config@.faces.len());
            assert forall|j: int| 0 <= j < asgs@.len() implies #[trigger] asgs@[j]@.len()
                >= perm@.len() - 1 by {
                assert(asgsv[j].len() == config@.faces.len() - 1);
                assert(asgsv[j] == asgs@[j]@);
            }
        }
        let ghost gathered_pre = gathered@.map_values(|x: Rec| rec_v(x));
        let mut one = recs_for_perm(perm, &asgs, config, oracle);
        let ghost onev = one@.map_values(|x: Rec| rec_v(x));
        gathered.append(&mut one);
        proof {
            assert forall|m: spec_fn(FloatQuery) -> FloatAnswer|
                #[trigger] oracle_models(oracle, m) implies gathered@.map_values(|x: Rec| rec_v(x))
                == concat_map(permsv.take(i + 1), g_perm(config@, m)) by {
                lemma_concat_map_push(permsv.take(i as int), g_perm(config@, m), permsv[i as int]);
                assert(permsv.take(i + 1) =~= permsv.take(i as int).push(permsv[i as int]));
                assert(onev == g_perm(config@, m)(perm@));
                assert(gathered@.map_values(|x: Rec| rec_v(x)) =~= gathered_pre + onev);
            }
        }
        i = i + 1;
    }
    proof {
        assert(permsv.take(perms@.len() as int) =~= permsv);
    }
    let sorted = sort_records(&gathered);
    let deduped = dedup_records(&sorted);
    let ghost dedupedv = deduped@.map_values(|x: Rec| rec_v(x));
    let mut results: Vec<CalculateResult> = Vec::new();
    let mut i: usize = 0;
    proof {
        assert(dedupedv.take(0) =~= Seq::<ResultV>::empty());
    }
    while i < deduped.len()
        invariant
            i <= deduped@.len(),
            dedupedv == deduped@.map_values(|x: Rec| rec_v(x)),
            results@.map_values(|x: CalculateResult| x@) == dedupedv.take(i as int),
        decreases deduped@.len() - i,
    {
        let rec = &deduped[i];
        let one = CalculateResult {
            total: rec.total,
            equation: chars_to_string(&rec.equation),
            fullEquation: chars_to_string(&rec.full),
            sortableEquation: chars_to_string(&rec.sortable),
        };
        proof {
            assert(one@ == rec_v(deduped@[i as int]));
            assert(rec_v(deduped@[i as int]) == dedupedv[i as int]);
        }
        results.push(one);
        proof {
            assert(results@.map_values(|x: CalculateResult| x@) =~= dedupedv.take(i as int).push(
                dedupedv[i as int],
            ));
            assert(dedupedv.take(i + 1) =~= dedupedv.take(i as int).push(dedupedv[i as int]));
        }
        i = i + 1;
    }
    proof {
        assert(dedupedv.take(deduped@.len() as int) =~= dedupedv);
    }
    Ok(results)
}

/// The pipeline is a pure function of its inputs: two solves with identical
/// configuration and the same arithmetic model yield identical ordered
/// output.
pub proof fn lemma_solve_deterministic(
    c: ConfigV,
    m: spec_fn(FloatQuery) -> FloatAnswer,
    r1: Seq<ResultV>,
    r2: Seq<ResultV>,
)
    requires
        r1 == solve_spec(c, m),
        r2 == solve_spec(c, m),
    ensures
        r1 == r2,
{
}

/// A result whose full text is its integer total, an equals sign, and its
/// equation.
pub open spec fn is_round_trip(r: ResultV) -> bool {
    r.full_equation == dec_digits(r.total as int) + " = "@ + r.equation
}

/// A property of every expanded element is a property of every element of
/// the concatenation.
proof fn lemma_concat_map_all<A>(s: Seq<A>, g: spec_fn(A) -> Seq<ResultV>, p: spec_fn(ResultV) -> bool)
    requires
        forall|k: int, j: int|
            0 <= k < s.len() && 0 <= j < g(s[k]).len() ==> p(#[trigger] g(s[k])[j]),
    ensures
        forall|j: int| 0 <= j < concat_map(s, g).len() ==> p(#[trigger] concat_map(s, g)[j]),
    decreases s.len(),
{
    if s.len() == 0 {
    } else {
        assert forall|k: int, j: int|
            0 <= k < s.drop_first().len() && 0 <= j < g(s.drop_first()[k]).len() implies p(
            #[trigger] g(s.drop_first()[k])[j],
        ) by {
            assert(s.drop_first()[k] == s[k + 1]);
            assert(p(g(s[k + 1])[j]));
        }
        lemma_concat_map_all(s.drop_first(), g, p);
        assert forall|j: int| 0 <= j < concat_map(s, g).len() implies p(
            #[trigger] concat_map(s, g)[j],
        ) by {
            if j < g(s[0]).len() {
                assert(concat_map(s, g)[j] == g(s[0])[j]);
                assert(p(g(s[0])[j]));
            } else {
                assert(concat_map(s, g)[j] == concat_map(s.drop_first(), g)[j - g(s[0]).len()]);
            }
        }
    }
}

/// Insertion keeps a property of every element.
proof fn lemma_insert_sorted_all(s: Seq<ResultV>, x: ResultV, p: spec_fn(ResultV) -> bool)
    requires
        forall|j: int| 0 <= j < s.len() ==> p(#[trigger] s[j]),
        p(x),
    ensures
        forall|j: int| 0 <= j < insert_sorted(s, x).len() ==> p(#[trigger] insert_sorted(s, x)[j]),
    decreases s.len(),
{
    if s.len() == 0 {
    } else if lex_le(s.last().sortable_equation, x.sortable_equation) {
        assert forall|j: int| 0 <= j < insert_sorted(s, x).len() implies p(
            #[trigger] insert_sorted(s, x)[j],
        ) by {
            if j < s.len() {
                assert(insert_sorted(s, x)[j] == s[j]);
            } else {
                assert(insert_sorted(s, x)[j] == x);
            }
        }
    } else {
        assert forall|j: int| 0 <= j < s.drop_last().len() implies p(#[trigger] s.drop_last()[j]) by {
            assert(s.drop_last()[j] == s[j]);
        }
        lemma_insert_sorted_all(s.drop_last(), x, p);
        let inner = insert_sorted(s.drop_last(), x);
        assert forall|j: int| 0 <= j < insert_sorted(s, x).len() implies p(
            #[trigger] insert_sorted(s, x)[j],
        ) by {
            if j < inner.len() {
                assert(insert_sorted(s, x)[j] == inner[j]);
            } else {
                assert(insert_sorted(s, x)[j] == s.last());
                assert(s.last() == s[s.len() - 1]);
            }
        }
    }
}

/// Sorting keeps a property of every element.
proof fn lemma_sort_all(s: Seq<ResultV>, p: spec_fn(ResultV) -> bool)
    requires
        forall|j: int| 0 <= j < s.len() ==> p(#[trigger] s[j]),
    ensures
        forall|j: int| 0 <= j < sort_recs(s).len() ==> p(#[trigger] sort_recs(s)[j]),
    decreases s.len(),
{
    if s.len() == 0 {
    } else {
        assert forall|j: int| 0 <= j < s.drop_last().len() implies p(#[trigger] s.drop_last()[j]) by {
            assert(s.drop_last()[j] == s[j]);
        }
        lemma_sort_all(s.drop_last(), p);
        assert(p(s.last()));
        lemma_insert_sorted_all(sort_recs(s.drop_last()), s.last(), p);
    }
}

/// Deduplication keeps a property of every element.
proof fn lemma_dedup_all(s: Seq<ResultV>, p: spec_fn(ResultV) -> bool)
    requires
        forall|j: int| 0 <= j < s.len() ==> p(#[trigger] s[j]),
    ensures
        forall|j: int| 0 <= j < dedup_recs(s).len() ==> p(#[trigger] dedup_recs(s)[j]),
    decreases s.len(),
{
    if s.len() <= 1 {
    } else {
        assert forall|j: int| 0 <= j < s.drop_last().len() implies p(#[trigger] s.drop_last()[j]) by {
            assert(s.drop_last()[j] == s[j]);
        }
        lemma_dedup_all(s.drop_last(), p);
        if s.last() == s[s.len() - 2] {
        } else {
            let inner = dedup_recs(s.drop_last());
            assert forall|j: int| 0 <= j < dedup_recs(s).len() implies p(#[trigger] dedup_recs(s)[j]) by {
                if j < inner.len() {
                    assert(dedup_recs(s)[j] == inner[j]);
                } else {
                    assert(dedup_recs(s)[j] == s.last());
                    assert(s.last() == s[s.len() - 1]);
                }
            }
        }
    }
}

/// Round trip: every returned result's full text is exactly its integer
/// total, an equals sign, and its equation, for every configuration and
/// every arithmetic model.
pub proof fn lemma_full_equation_round_trip(c: ConfigV, m: spec_fn(FloatQuery) -> FloatAnswer)
    ensures
        forall|j: int|
            0 <= j < solve_spec(c, m).len() ==> is_round_trip(#[trigger] solve_spec(c, m)[j]),
{
    if c.faces.len() < 2 || c.operation_ids.len() == 0 {
    } else {
        let p = |r: ResultV| is_round_trip(r);
        assert forall|k: int, j: int|
            0 <= k < spec_permutations(c.faces).len() && 0 <= j < g_perm(c, m)(
                spec_permutations(c.faces)[k],
            ).len() implies p(#[trigger] g_perm(c, m)(spec_permutations(c.faces)[k])[j]) by {
            let perm = spec_permutations(c.faces)[k];
            let trees = spec_pairings(leaves_of(perm));
            assert forall|k2: int, j2: int|
                0 <= k2 < trees.len() && 0 <= j2 < g_tree(asgs_of(c), c, m)(trees[k2]).len() implies p(
                #[trigger] g_tree(asgs_of(c), c, m)(trees[k2])[j2],
            ) by {
                let t = trees[k2];
                assert forall|k3: int, j3: int|
                    0 <= k3 < asgs_of(c).len() && 0 <= j3 < g_asg(t, c, m)(asgs_of(c)[k3]).len() implies p(
                    #[trigger] g_asg(t, c, m)(asgs_of(c)[k3])[j3],
                ) by {
                    let a = asgs_of(c)[k3];
                    let contributed = rec_of(c, m, eval_spec(t, a, true, m));
                    assert(g_asg(t, c, m)(a) == contributed);
                    assert(contributed.len() <= 1);
                    if contributed.len() == 1 {
                        assert(is_round_trip(contributed[0]));
                    }
                }
                lemma_concat_map_all(asgs_of(c), g_asg(t, c, m), p);
                assert(g_tree(asgs_of(c), c, m)(t) == concat_map(asgs_of(c), g_asg(t, c, m)));
            }
            lemma_concat_map_all(trees, g_tree(asgs_of(c), c, m), p);
            assert(g_perm(c, m)(perm) == concat_map(trees, g_tree(asgs_of(c), c, m)));
        }
        lemma_concat_map_all(spec_permutations(c.faces), g_perm(c, m), p);
        lemma_sort_all(candidates(c, m), p);
        lemma_dedup_all(sort_recs(candidates(c, m)), p);
        assert forall|j: int| 0 <= j < solve_spec(c, m).len() implies is_round_trip(
            #[trigger] solve_spec(c, m)[j],
        ) by {
            assert(solve_spec(c, m)[j] == dedup_recs(sort_recs(candidates(c, m)))[j]);
            assert(p(dedup_recs(sort_recs(candidates(c, m)))[j]));
        }
    }
}

/// The lexicographic order on keys is total.
proof fn lemma_lex_le_total(a: Seq<char>, b: Seq<char>)
    ensures
        lex_le(a, b) || lex_le(b, a),
    decreases a.len(),
{
    if a.len() == 0 || b.len() == 0 {
    } else if (a[0] as u32) != (b[0] as u32) {
    } else {
        lemma_lex_le_total(a.drop_first(), b.drop_first());
    }
}

/// The records stand in ascending key order.
pub open spec fn sorted_by_key(s: Seq<ResultV>) -> bool {
    forall|j: int|
        0 <= j < s.len() - 1 ==> lex_le(
            #[trigger] s[j].sortable_equation,
            s[j + 1].sortable_equation,
        )
}

/// Insertion keeps the records in ascending key order.
proof fn lemma_insert_sorted_sorted(s: Seq<ResultV>, x: ResultV)
    requires
        sorted_by_key(s),
    ensures
        sorted_by_key(insert_sorted(s, x)),
    decreases s.len(),
{
    if s.len() == 0 {
    } else if lex_le(s.last().sortable_equation, x.sortable_equation) {
        let out = s.push(x);
        assert forall|j: int| 0 <= j < out.len() - 1 implies lex_le(
            #[trigger] out[j].sortable_equation,
            out[j + 1].sortable_equation,
        ) by {
            if j < s.len() - 1 {
                assert(out[j] == s[j]);
                assert(out[j + 1] == s[j + 1]);
            } else {
                assert(out[j] == s.last());
                assert(out[j + 1] == x);
            }
        }
    } else {
        lemma_lex_le_total(s.last().sortable_equation, x.sortable_equation);
        assert(lex_le(x.sortable_equation, s.last().sortable_equation));
        assert forall|j: int| 0 <= j < s.drop_last().len() - 1 implies lex_le(
            #[trigger] s.drop_last()[j].sortable_equation,
            s.drop_last()[j + 1].sortable_equation,
        ) by {
            assert(s.drop_last()[j] == s[j]);
            assert(s.drop_last()[j + 1] == s[j + 1]);
        }
        lemma_insert_sorted_sorted(s.drop_last(), x);
        let inner = insert_sorted(s.drop_last(), x);
        let out = inner.push(s.last());
        assert(inner.len() >= 1);
        // The last entry of the inner insertion is either `x` or the last
        // entry of the shortened sequence; both are at most the removed
        // last entry.
        assert(lex_le(inner.last().sortable_equation, s.last().sortable_equation)) by {
            if s.drop_last().len() == 0 {
                assert(inner =~= seq![x]);
            } else if lex_le(
                s.drop_last().last().sortable_equation,
                x.sortable_equation,
            ) {
                assert(inner == s.drop_last().push(x));
                assert(inner.last() == x);
            } else {
                assert(inner == insert_sorted(s.drop_last().drop_last(), x).push(
                    s.drop_last().last(),
                ));
                assert(inner.last() == s.drop_last().last());
                assert(s.drop_last().last() == s[s.len() - 2]);
                assert(lex_le(s[s.len() - 2].sortable_equation, s[s.len() - 1].sortable_equation));
            }
        }
        assert forall|j: int| 0 <= j < out.len() - 1 implies lex_le(
            #[trigger] out[j].sortable_equation,
            out[j + 1].sortable_equation,
        ) by {
            if j < inner.len() - 1 {
                assert(out[j] == inner[j]);
                assert(out[j + 1] == inner[j + 1]);
            } else {
                assert(out[j] == inner.last());
                assert(out[j + 1] == s.last());
            }
        }
    }
}

/// The sort stage leaves the records in ascending key order.
proof fn lemma_sort_sorted(s: Seq<ResultV>)
    ensures
        sorted_by_key(sort_recs(s)),
    decreases s.len(),
{
    if s.len() == 0 {
    } else {
        lemma_sort_sorted(s.drop_last());
        lemma_insert_sorted_sorted(sort_recs(s.drop_last()), s.last());
    }
}

/// Deduplication keeps the last record.
proof fn lemma_dedup_last(s: Seq<ResultV>)
    requires
        s.len() >= 1,
    ensures
        dedup_recs(s).len() >= 1,
        dedup_recs(s).last() == s.last(),
    decreases s.len(),
{
    if s.len() <= 1 {
    } else if s.last() == s[s.len() - 2] {
        lemma_dedup_last(s.drop_last());
        assert(s.drop_last().last() == s[s.len() - 2]);
    } else {
        lemma_dedup_last(s.drop_last());
    }
}

/// Deduplicating sorted records keeps them sorted and leaves no two
/// consecutive records equal.
proof fn lemma_dedup_canonical(s: Seq<ResultV>)
    requires
        sorted_by_key(s),
    ensures
        sorted_by_key(dedup_recs(s)),
        forall|j: int| 0 <= j < dedup_recs(s).len() - 1 ==> #[trigger] dedup_recs(s)[j] != dedup_recs(
            s,
        )[j + 1],
    decreases s.len(),
{
    if s.len() <= 1 {
    } else {
        assert forall|j: int| 0 <= j < s.drop_last().len() - 1 implies lex_le(
            #[trigger] s.drop_last()[j].sortable_equation,
            s.drop_last()[j + 1].sortable_equation,
        ) by {
            assert(s.drop_last()[j] == s[j]);
            assert(s.drop_last()[j + 1] == s[j + 1]);
        }
        lemma_dedup_canonical(s.drop_last());
        if s.last() == s[s.len() - 2] {
        } else {
            lemma_dedup_last(s.drop_last());
            let inner = dedup_recs(s.drop_last());
            let out = inner.push(s.last());
            assert(inner.last() == s[s.len() - 2]);
            assert forall|j: int| 0 <= j < out.len() - 1 implies lex_le(
                #[trigger] out[j].sortable_equation,
                out[j + 1].sortable_equation,
            ) by {
                if j < inner.len() - 1 {
                    assert(out[j] == inner[j]);
                    assert(out[j + 1] == inner[j + 1]);
                } else {
                    assert(out[j] == inner.last());
                    assert(out[j + 1] == s.last());
                    assert(lex_le(
                        s[s.len() - 2].sortable_equation,
                        s[s.len() - 1].sortable_equation,
                    ));
                }
            }
            assert forall|j: int| 0 <= j < out.len() - 1 implies #[trigger] out[j] != out[j + 1] by {
                if j < inner.len() - 1 {
                    assert(out[j] == inner[j]);
                    assert(out[j + 1] == inner[j + 1]);
                } else {
                    assert(out[j] == inner.last());
                    assert(out[j + 1] == s.last());
                }
            }
        }
    }
}

/// Canonical output: for every configuration and every arithmetic model,
/// the returned records stand in ascending order of their sortable keys and
/// no two consecutive records are structurally equal.
pub proof fn lemma_solve_output_canonical(c: ConfigV, m: spec_fn(FloatQuery) -> FloatAnswer)
    ensures
        sorted_by_key(solve_spec(c, m)),
        forall|j: int|
            0 <= j < solve_spec(c, m).len() - 1 ==> #[trigger] solve_spec(c, m)[j] != solve_spec(
                c,
                m,
            )[j + 1],
{
    if c.faces.len() < 2 || c.operation_ids.len() == 0 {
    } else {
        lemma_sort_sorted(candidates(c, m));
        lemma_dedup_canonical(sort_recs(candidates(c, m)));
    }
}

} // verus!
