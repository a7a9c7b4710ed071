//! The exec list: the configured chain of per-substream operators plus the
//! loader endpoints. The list is normalized by sorting under the total order
//! `Join < Filter < Load` (name order within a kind) and collapsing duplicate
//! `Join` entries into one; the operators form a leading range and the
//! loaders a trailing one.

use crate::error::ConfigError;
use crate::filter::FilterSet;
use crate::text::{lex_le, str_le};
use vstd::prelude::*;
use vstd::string::StringSliceAdditionalSpecFns;

verus! {

broadcast use vstd::seq_lib::group_to_multiset_ensures;

/// One entry of the configured `exec` list.
pub enum DataOp {
    Join,
    Filter(String),
    Load(String),
}

impl DataOp {
    pub fn is_join(&self) -> (r: bool)
        ensures
            r == (self is Join),
    {
        match self {
            DataOp::Join => true,
            _ => false,
        }
    }

    pub fn is_filter(&self) -> (r: bool)
        ensures
            r == (self is Filter),
    {
        match self {
            DataOp::Filter(_) => true,
            _ => false,
        }
    }

    pub fn is_load(&self) -> (r: bool)
        ensures
            r == (self is Load),
    {
        match self {
            DataOp::Load(_) => true,
            _ => false,
        }
    }
}

/// The rank of an entry in the normalization order.
pub open spec fn op_rank(op: DataOp) -> int {
    match op {
        DataOp::Join => 0,
        DataOp::Filter(_) => 1,
        DataOp::Load(_) => 2,
    }
}

/// The name an entry sorts by within its rank.
pub open spec fn op_name(op: DataOp) -> Seq<u8> {
    match op {
        DataOp::Join => Seq::empty(),
        DataOp::Filter(s) => vstd::utf8::encode_utf8(s@),
        DataOp::Load(s) => vstd::utf8::encode_utf8(s@),
    }
}

/// The normalization order: by rank, then by name.
pub open spec fn op_le(a: DataOp, b: DataOp) -> bool {
    op_rank(a) < op_rank(b) || (op_rank(a) == op_rank(b) && lex_le(op_name(a), op_name(b)))
}

/// The entries of a list that are not `Join`, in order.
pub open spec fn non_joins(s: Seq<DataOp>) -> Seq<DataOp>
    decreases s.len(),
{
    if s.len() == 0 {
        Seq::empty()
    } else if s.last() is Join {
        non_joins(s.drop_last())
    } else {
        non_joins(s.drop_last()).push(s.last())
    }
}

/// A list without `Join` entries is untouched by `non_joins`.
proof fn lemma_non_joins_id(s: Seq<DataOp>)
    requires
        forall|i: int| 0 <= i < s.len() ==> !((#[trigger] s[i]) is Join),
    ensures
        non_joins(s) == s,
    decreases s.len(),
{
    if s.len() > 0 {
        lemma_non_joins_id(s.drop_last());
        assert(s.drop_last().push(s.last()) =~= s);
    }
}

/// A leading `Join` does not change the non-`Join` entries.
proof fn lemma_non_joins_skip_join(s: Seq<DataOp>)
    ensures
        non_joins(seq![DataOp::Join] + s) == non_joins(s),
    decreases s.len(),
{
    let t = seq![DataOp::Join] + s;
    if s.len() == 0 {
        assert(t.len() == 1);
        assert(t[0] == DataOp::Join);
        assert(t.last() is Join);
        assert(t.drop_last() =~= Seq::<DataOp>::empty());
        assert(non_joins(Seq::<DataOp>::empty()) =~= Seq::<DataOp>::empty());
        assert(non_joins(s) =~= Seq::<DataOp>::empty());
    } else {
        assert(t.last() == s.last());
        assert(t.drop_last() =~= seq![DataOp::Join] + s.drop_last());
        lemma_non_joins_skip_join(s.drop_last());
    }
}

/// Adjacent-sortedness under the normalization order.
pub open spec fn ops_sorted(s: Seq<DataOp>) -> bool {
    forall|i: int| 0 <= i && i + 1 < s.len() ==> op_le(#[trigger] s[i], s[i + 1])
}

fn op_le_exec(a: &DataOp, b: &DataOp) -> (r: bool)
    ensures
        r == op_le(*a, *b),
{
    let ra: u32 = match a {
        DataOp::Join => 0,
        DataOp::Filter(_) => 1,
        DataOp::Load(_) => 2,
    };
    let rb: u32 = match b {
        DataOp::Join => 0,
        DataOp::Filter(_) => 1,
        DataOp::Load(_) => 2,
    };
    if ra < rb {
        true
    } else if ra > rb {
        false
    } else {
        match (a, b) {
            (DataOp::Filter(x), DataOp::Filter(y)) => str_le(x.as_str(), y.as_str()),
            (DataOp::Load(x), DataOp::Load(y)) => str_le(x.as_str(), y.as_str()),
            _ => true,
        }
    }
}

/// Insert `x` into a sorted list, keeping it sorted.
fn insert_sorted(v: &mut Vec<DataOp>, x: DataOp)
    requires
        ops_sorted(old(v)@),
    ensures
        ops_sorted(final(v)@),
        final(v)@.to_multiset() == old(v)@.to_multiset().insert(x),
        final(v)@.len() == old(v)@.len() + 1,
        forall|j: int|
            0 <= j < final(v)@.len() ==> (#[trigger] final(v)@[j] == x || old(v)@.contains(
                final(v)@[j],
            )),
{
    let mut i: usize = 0;
    while i < v.len()
        invariant_except_break
            ops_sorted(v@),
            v == old(v),
            i <= v@.len(),
            forall|j: int| 0 <= j < i ==> op_le(#[trigger] v@[j], x),
        ensures
            ops_sorted(v@),
            v == old(v),
            i <= v@.len(),
            forall|j: int| 0 <= j < i ==> op_le(#[trigger] v@[j], x),
            i < v@.len() ==> !op_le(v@[i as int], x),
        decreases v@.len() - i,
    {
        if !op_le_exec(&v[i], &x) {
            break ;
        }
        i = i + 1;
    }
    let ghost before = v@;
    v.insert(i, x);
    proof {
        assert(v@ == before.insert(i as int, x));
        before.insert_ensures(i as int, x);
        assert forall|k: int| 0 <= k && k + 1 < v@.len() implies op_le(
            #[trigger] v@[k],
            v@[k + 1],
        ) by {
            if k + 1 < i {
                assert(before.insert(i as int, x)[k] == before[k]);
                assert(before.insert(i as int, x)[k + 1] == before[k + 1]);
            } else if k + 1 == i {
                assert(before.insert(i as int, x)[k] == before[k]);
                assert(before.insert(i as int, x)[i as int] == x);
            } else if k == i {
                assert(before.insert(i as int, x)[i as int] == x);
                assert(before.insert(i as int, x)[k + 1] == before[k]);
                assert(!op_le(before[k as int], x));
                lemma_op_le_total(before[k as int], x);
            } else {
                assert(before.insert(i as int, x)[k] == before[k - 1]);
                assert(before.insert(i as int, x)[k + 1] == before[k]);
            }
        }
        assert(v@ =~= before.subrange(0, i as int).push(x) + before.subrange(
            i as int,
            before.len() as int,
        ));
        assert(before.subrange(0, i as int) + before.subrange(i as int, before.len() as int)
            =~= before);
        lemma_insert_multiset(before, i as int, x);
        assert forall|j: int| 0 <= j < v@.len() implies (#[trigger] v@[j] == x || before.contains(
            v@[j],
        )) by {
            if j < i {
                assert(before.insert(i as int, x)[j] == before[j]);
            } else if j > i {
                assert(before.insert(i as int, x)[j] == before[j - 1]);
            }
        }
    }
}

/// The order is total: of any two entries, one is below the other.
proof fn lemma_op_le_total(a: DataOp, b: DataOp)
    ensures
        op_le(a, b) || op_le(b, a),
{
    lemma_lex_le_total(op_name(a), op_name(b));
}

/// Lexicographic order on byte strings is total.
proof fn lemma_lex_le_total(a: Seq<u8>, b: Seq<u8>)
    ensures
        lex_le(a, b) || lex_le(b, a),
    decreases a.len(),
{
    if a.len() > 0 && b.len() > 0 && a[0] == b[0] {
        lemma_lex_le_total(a.drop_first(), b.drop_first());
    }
}

/// Inserting in the middle adds one occurrence to the multiset.
proof fn lemma_insert_multiset(s: Seq<DataOp>, i: int, x: DataOp)
    requires
        0 <= i <= s.len(),
    ensures
        (s.subrange(0, i).push(x) + s.subrange(i, s.len() as int)).to_multiset()
            == s.to_multiset().insert(x),
{
    broadcast use vstd::seq_lib::group_to_multiset_ensures;

    let pre = s.subrange(0, i);
    let post = s.subrange(i, s.len() as int);
    vstd::seq_lib::lemma_multiset_commutative(pre.push(x), post);
    vstd::seq_lib::lemma_multiset_commutative(pre, post);
    assert(pre.push(x).to_multiset() == pre.to_multiset().insert(x));
    assert(pre + post =~= s);
    assert((pre.push(x) + post).to_multiset() == pre.to_multiset().insert(x).add(
        post.to_multiset(),
    ));
    assert(pre.to_multiset().insert(x).add(post.to_multiset()) =~= pre.to_multiset().add(
        post.to_multiset(),
    ).insert(x));
}

/// The configured operator chain plus loader endpoints, normalized: at most
/// one `Join` first, then the filters in name order, then the loaders.
pub struct ExecList {
    inner: Vec<DataOp>,
    ops_r: Option<(usize, usize)>,
    load_r: Option<(usize, usize)>,
}

/// One step of the per-substream pipeline.
#[derive(Clone, Copy)]
pub enum OpKind<'cli> {
    Filter(&'cli str),
    Join,
}

/// One loader endpoint.
pub struct Load<'cli>(pub &'cli str);

impl ExecList {
    /// The normalized entries.
    pub closed spec fn ops(self) -> Seq<DataOp> {
        self.inner@
    }

    /// The normalized list: sorted, with at most one `Join`, which comes
    /// first when present.
    pub closed spec fn wf(self) -> bool {
        &&& ops_sorted(self.inner@)
        &&& forall|i: int| 0 < i < self.inner@.len() ==> !((#[trigger] self.inner@[i]) is Join)
        &&& match self.ops_r {
            Some((s, e)) => s == 0 && s < e <= self.inner@.len() && (forall|i: int|
                s <= i < e ==> !((#[trigger] self.inner@[i]) is Load)) && (forall|i: int|
                e <= i < self.inner@.len() ==> (#[trigger] self.inner@[i]) is Load),
            None => forall|i: int|
                0 <= i < self.inner@.len() ==> (#[trigger] self.inner@[i]) is Load,
        }
        &&& match self.load_r {
            Some((s, e)) => s < e == self.inner@.len() && forall|i: int|
                s <= i < e ==> (#[trigger] self.inner@[i]) is Load,
            None => forall|i: int|
                0 <= i < self.inner@.len() ==> !((#[trigger] self.inner@[i]) is Load),
        }
    }

    /// Normalize a configured list: sort it under `Join < Filter < Load`,
    /// collapse duplicate `Join` entries, and record the operator and loader
    /// ranges.
    pub fn new(backing: Vec<DataOp>) -> (r: ExecList)
        ensures
            r.wf(),
            ops_sorted(r.ops()),
            (exists|i: int| 0 <= i < backing@.len() && (#[trigger] backing@[i]) is Join) <==> (
            r.ops().len() > 0 && r.ops()[0] is Join),
            forall|i: int| 0 < i < r.ops().len() ==> !((#[trigger] r.ops()[i]) is Join),
            non_joins(r.ops()).to_multiset() == non_joins(backing@).to_multiset(),
    {
        let mut rest: Vec<DataOp> = Vec::new();
        let mut has_join = false;
        let mut k: usize = 0;
        proof {
            assert(backing@.subrange(0, 0) =~= Seq::<DataOp>::empty());
        }
        while k < backing.len()
            invariant
                k <= backing@.len(),
                ops_sorted(rest@),
                forall|i: int| 0 <= i < rest@.len() ==> !((#[trigger] rest@[i]) is Join),
                has_join <==> exists|i: int|
                    0 <= i < k && (#[trigger] backing@[i]) is Join,
                rest@.to_multiset() == non_joins(backing@.subrange(0, k as int)).to_multiset(),
            decreases backing@.len() - k,
        {
            let ghost pre = backing@.subrange(0, k as int);
            let op = backing[k].clone_op();
            let ghost rest0 = rest@;
            if op.is_join() {
                has_join = true;
            } else {
                insert_sorted(&mut rest, op);
            }
            k = k + 1;
            proof {
                let x = backing@[k - 1];
                let pushed = pre.push(x);
                assert(backing@.subrange(0, k as int) =~= pushed);
                assert(pushed.drop_last() =~= pre);
                assert(pushed.last() == x);
                assert(non_joins(pushed) == (if x is Join {
                    non_joins(pre)
                } else {
                    non_joins(pre).push(x)
                }));
            }
        }
        proof {
            assert(backing@.subrange(0, backing@.len() as int) =~= backing@);
        }
        let mut inner: Vec<DataOp> = Vec::new();
        if has_join {
            inner.push(DataOp::Join);
        }
        let ghost join_prefix = inner@;
        let mut j: usize = 0;
        while j < rest.len()
            invariant
                j <= rest@.len(),
                inner@ == join_prefix + rest@.subrange(0, j as int),
                join_prefix.len() <= 1,
                forall|i: int| 0 <= i < join_prefix.len() ==> (#[trigger] join_prefix[i]) is Join,
            decreases rest@.len() - j,
        {
            let op = rest[j].clone_op();
            inner.push(op);
            proof {
                assert(inner@ =~= join_prefix + rest@.subrange(0, j + 1));
            }
            j = j + 1;
        }
        proof {
            assert(rest@.subrange(0, rest@.len() as int) =~= rest@);
            assert(inner@ == join_prefix + rest@);
            assert forall|k: int| 0 <= k && k + 1 < inner@.len() implies op_le(
                #[trigger] inner@[k],
                inner@[k + 1],
            ) by {
                if join_prefix.len() == 1 {
                    if k == 0 {
                        assert(inner@[0] == join_prefix[0]);
                        assert(inner@[0] is Join);
                        assert(inner@[1] == rest@[0]);
                        assert(!(rest@[0] is Join));
                    } else {
                        assert(inner@[k] == rest@[k - 1]);
                        assert(inner@[k + 1] == rest@[k]);
                    }
                } else {
                    assert(inner@[k] == rest@[k]);
                    assert(inner@[k + 1] == rest@[k + 1]);
                }
            }
        }
        // operator range: everything up to the first loader; loader range after
        let mut split: usize = 0;
        while split < inner.len()
            invariant_except_break
                split <= inner@.len(),
                forall|i: int| 0 <= i < split ==> !((#[trigger] inner@[i]) is Load),
            ensures
                split <= inner@.len(),
                forall|i: int| 0 <= i < split ==> !((#[trigger] inner@[i]) is Load),
                split < inner@.len() ==> inner@[split as int] is Load,
            decreases inner@.len() - split,
        {
            if inner[split].is_load() {
                break ;
            }
            split = split + 1;
        }
        proof {
            assert forall|i: int| split <= i < inner@.len() implies (#[trigger] inner@[i])
                is Load by {
                lemma_sorted_loads(inner@, split as int, i);
            }
        }
        let ops_r: Option<(usize, usize)> = if split > 0 {
            Some((0, split))
        } else {
            None
        };
        let load_r: Option<(usize, usize)> = if split < inner.len() {
            Some((split, inner.len()))
        } else {
            None
        };
        let r = ExecList { inner, ops_r, load_r };
        proof {
            assert(non_joins(r.ops()) == rest@) by {
                lemma_non_joins_id(rest@);
                if join_prefix.len() == 1 {
                    assert(r.ops() =~= seq![DataOp::Join] + rest@);
                    lemma_non_joins_skip_join(rest@);
                } else {
                    assert(r.ops() =~= rest@);
                }
            }
        }
        r
    }

    /// The operator slice (join and filters), if any operators were given.
    pub fn get_ops(&self) -> (r: Option<Vec<OpKind<'_>>>)
        requires
            self.wf(),
        ensures
            r is Some <==> exists|i: int|
                0 <= i < self.ops().len() && !((#[trigger] self.ops()[i]) is Load),
            r matches Some(v) ==> {
                &&& self.ops_range() matches Some((s, e)) && s == 0 && v@.len() == e
                &&& forall|i: int|
                    0 <= i < v@.len() ==> #[trigger] op_kind_matches(v@[i], self.ops()[i])
            },
    {
        proof {
            match self.ops_r {
                Some((s, e)) => {
                    assert(!(self.ops()[0] is Load));
                },
                None => {},
            }
        }
        match self.ops_r {
            None => None,
            Some((s, e)) => {
                let mut v: Vec<OpKind<'_>> = Vec::new();
                let mut i: usize = s;
                while i < e
                    invariant
                        self.wf(),
                        self.ops_r == Some((s, e)),
                        s <= i <= e <= self.inner@.len(),
                        v@.len() == i - s,
                        forall|j: int|
                            0 <= j < v@.len() ==> #[trigger] op_kind_matches(
                                v@[j],
                                self.inner@[s + j],
                            ),
                    decreases e - i,
                {
                    let kind = match &self.inner[i] {
                        DataOp::Join => OpKind::Join,
                        DataOp::Filter(name) => OpKind::Filter(name.as_str()),
                        DataOp::Load(_) => {
                            proof {
                                assert(false);
                            }
                            OpKind::Join
                        },
                    };
                    v.push(kind);
                    i = i + 1;
                }
                proof {
                    assert forall|j: int| 0 <= j < v@.len() implies #[trigger] op_kind_matches(
                        v@[j],
                        self.ops()[j],
                    ) by {
                        assert(op_kind_matches(v@[j], self.inner@[s + j]));
                    }
                }
                Some(v)
            },
        }
    }

    /// The loader slice, if any loaders were configured.
    pub fn get_loads(&self) -> (r: Option<Vec<Load<'_>>>)
        requires
            self.wf(),
        ensures
            r is Some <==> exists|i: int|
                0 <= i < self.ops().len() && (#[trigger] self.ops()[i]) is Load,
            r matches Some(v) ==> {
                &&& self.loads_range() matches Some((s, e)) && e == self.ops().len() && v@.len()
                    == e - s
                &&& forall|i: int|
                    0 <= i < v@.len() ==> #[trigger] load_matches(
                        v@[i],
                        self.ops()[self.loads_range().unwrap().0 + i],
                    )
            },
    {
        proof {
            match self.load_r {
                Some((s, e)) => {
                    assert(self.ops()[s as int] is Load);
                },
                None => {},
            }
        }
        match self.load_r {
            None => None,
            Some((s, e)) => {
                let mut v: Vec<Load<'_>> = Vec::new();
                let mut i: usize = s;
                while i < e
                    invariant
                        self.wf(),
                        self.load_r == Some((s, e)),
                        s <= i <= e <= self.inner@.len(),
                        v@.len() == i - s,
                        forall|j: int|
                            0 <= j < v@.len() ==> #[trigger] load_matches(
                                v@[j],
                                self.inner@[s + j],
                            ),
                    decreases e - i,
                {
                    let ld = match &self.inner[i] {
                        DataOp::Load(addr) => Load(addr.as_str()),
                        _ => {
                            proof {
                                assert(false);
                            }
                            Load("")
                        },
                    };
                    v.push(ld);
                    i = i + 1;
                }
                Some(v)
            },
        }
    }

    /// The operator range.
    pub closed spec fn ops_range(self) -> Option<(usize, usize)> {
        self.ops_r
    }

    /// The loader range.
    pub closed spec fn loads_range(self) -> Option<(usize, usize)> {
        self.load_r
    }

    /// Every `exec` entry of kind `Filter` must name an existing filter.
    pub fn validate(&self, filters: &FilterSet) -> (r: Result<(), ConfigError>)
        requires
            filters.wf(),
        ensures
            r is Ok <==> (forall|i: int|
                0 <= i < self.ops().len() ==> ((#[trigger] self.ops()[i]) matches DataOp::Filter(
                    name,
                ) ==> filters.has_name(name@))),
            r matches Err(e) ==> e matches ConfigError::InvalidExecKey(sub, name)
                && sub == crate::error::CfgErrSubject::Filter && !filters.has_name(name@),
    {
        let mut i: usize = 0;
        while i < self.inner.len()
            invariant
                filters.wf(),
                i <= self.inner@.len(),
                forall|j: int|
                    0 <= j < i ==> ((#[trigger] self.inner@[j]) matches DataOp::Filter(name)
                        ==> filters.has_name(name@)),
            decreases self.inner@.len() - i,
        {
            match &self.inner[i] {
                DataOp::Filter(name) => {
                    if !filters.contains_name(name.as_str()) {
                        return Err(
                            ConfigError::InvalidExecKey(
                                crate::error::CfgErrSubject::Filter,
                                name.clone(),
                            ),
                        );
                    }
                },
                _ => {},
            }
            i = i + 1;
        }
        Ok(())
    }
}

/// Merge one configuration file's optional section into the sections seen
/// so far: a section given twice across files is a fatal duplicate.
pub fn lift_result<T>(cur: Option<T>, prev: Option<T>, subject: crate::error::CfgErrSubject) -> (r:
    Result<Option<T>, crate::error::ConfigError>)
    ensures
        cur is None ==> r == Ok::<Option<T>, crate::error::ConfigError>(prev),
        prev is None ==> r == Ok::<Option<T>, crate::error::ConfigError>(cur),
        (cur is Some && prev is Some) ==> (r matches Err(e) && e matches
            crate::error::ConfigError::Duplicate(s) && s == subject),
{
    match (cur, prev) {
        (None, prev) => Ok(prev),
        (cur, None) => Ok(cur),
        (Some(_), Some(_)) => Err(crate::error::ConfigError::Duplicate(subject)),
    }
}

/// Unwrap a required configuration section; a section never given is a
/// fatal omission.
pub fn require_section<T>(s: Option<T>, subject: crate::error::CfgErrSubject) -> (r: Result<
    T,
    crate::error::ConfigError,
>)
    ensures
        s matches Some(v) ==> r == Ok::<T, crate::error::ConfigError>(v),
        s is None ==> (r matches Err(e) && e matches crate::error::ConfigError::Missing(sub)
            && sub == subject),
{
    match s {
        Some(v) => Ok(v),
        None => Err(crate::error::ConfigError::Missing(subject)),
    }
}

/// In a sorted list with no loader before `split`, everything from the first
/// loader on is a loader.
proof fn lemma_sorted_loads(s: Seq<DataOp>, split: int, i: int)
    requires
        ops_sorted(s),
        0 <= split <= i < s.len(),
        split < s.len() ==> s[split] is Load,
    ensures
        s[i] is Load,
    decreases i - split,
{
    if i > split {
        lemma_sorted_loads(s, split, i - 1);
        assert(op_le(s[i - 1], s[i]));
    }
}

/// An operator entry corresponds to a `DataOp`.
pub open spec fn op_kind_matches(k: OpKind, op: DataOp) -> bool {
    match (k, op) {
        (OpKind::Join, DataOp::Join) => true,
        (OpKind::Filter(a), DataOp::Filter(b)) => a@ == b@,
        _ => false,
    }
}

/// A loader entry corresponds to a `DataOp`.
pub open spec fn load_matches(l: Load, op: DataOp) -> bool {
    op matches DataOp::Load(addr) && l.0@ == addr@
}

impl DataOp {
    /// An explicit deep copy.
    pub fn clone_op(&self) -> (r: DataOp)
        ensures
            r == *self,
    {
        match self {
            DataOp::Join => DataOp::Join,
            DataOp::Filter(s) => DataOp::Filter(s.clone()),
            DataOp::Load(s) => DataOp::Load(s.clone()),
        }
    }
}

} // verus!
