//! The error taxonomy of the transformer: configuration errors are fatal at
//! startup, record errors drop the offending record, connection errors close
//! one connection, channel errors end one peer task.

use crate::markers::DataContext;
use vstd::prelude::*;

verus! {

/// The category of an error, as logged with each message.
#[derive(Debug, Clone, Copy, PartialEq, Eq, Structural)]
pub enum Category {
    Io,
    Config,
    Record,
    Channel,
}

/// What part of the configuration an error is about.
#[derive(Debug, Clone, Copy, PartialEq, Eq, Structural)]
pub enum CfgErrSubject {
    Filter,
    Join,
    Mapping,
    Transform,
    Exec,
    Load,
}

/// A configuration error: a missing or duplicated section, an `exec` entry
/// naming an unknown filter, or a failure while compiling a section.
#[derive(Debug)]
pub enum ConfigError {
    Missing(CfgErrSubject),
    Duplicate(CfgErrSubject),
    InvalidExecKey(CfgErrSubject, String),
    Other(crate::load::LoadError),
}

/// The error kinds of the transformer.
#[derive(Debug)]
pub enum ErrKind {
    Io,
    InvalidConfig(ConfigError),
    InvalidRecordContext { invalid: DataContext, expected: String },
    RecordDataInvalidUtf8,
}

/// The category each error kind belongs to.
pub open spec fn spec_categorize(e: ErrKind) -> Category {
    match e {
        ErrKind::Io => Category::Io,
        ErrKind::InvalidConfig(_) => Category::Config,
        ErrKind::InvalidRecordContext { .. } => Category::Record,
        ErrKind::RecordDataInvalidUtf8 => Category::Record,
    }
}

/// A boxed error kind, the error type the transformer's results carry.
#[derive(Debug)]
pub struct CrateError {
    pub inner: Box<ErrKind>,
}

impl CrateError {
    pub fn categorize(&self) -> (c: Category)
        ensures
            c == spec_categorize(*self.inner),
    {
        match &*self.inner {
            ErrKind::Io => Category::Io,
            ErrKind::InvalidConfig(_) => Category::Config,
            ErrKind::InvalidRecordContext { .. } => Category::Record,
            ErrKind::RecordDataInvalidUtf8 => Category::Record,
        }
    }

    /// The error raised when a record carries a context tag that its kind
    /// does not allow; records the offending tag and the names of the
    /// expected ones.
    pub fn err_invalid_record(invalid: DataContext, expected: &Vec<DataContext>) -> (r: Self)
        ensures
            (*r.inner) matches ErrKind::InvalidRecordContext { invalid: i, expected: e } && i
                == invalid && e@ == spec_rcxt_join(expected@),
    {
        let expected = rcxt_join(expected);
        CrateError { inner: Box::new(ErrKind::InvalidRecordContext { invalid, expected }) }
    }
}

/// The display name of a context tag.
pub open spec fn spec_rcxt_name(cxt: DataContext) -> Seq<char> {
    match cxt {
        DataContext::Start => "Start"@,
        DataContext::End => "End"@,
        DataContext::Stdout => "Stdout"@,
        DataContext::Stderr => "Stderr"@,
    }
}

/// The display name of a context tag.
pub fn rcxt_display(cxt: &DataContext) -> (r: &'static str)
    ensures
        r@ == spec_rcxt_name(*cxt),
{
    match cxt {
        DataContext::Start => "Start",
        DataContext::End => "End",
        DataContext::Stdout => "Stdout",
        DataContext::Stderr => "Stderr",
    }
}

/// The comma-joined display names of a list of context tags.
pub open spec fn spec_rcxt_join(valid: Seq<DataContext>) -> Seq<char>
    decreases valid.len(),
{
    if valid.len() == 0 {
        Seq::empty()
    } else if valid.len() == 1 {
        spec_rcxt_name(valid[0])
    } else {
        spec_rcxt_name(valid[0]) + ","@ + spec_rcxt_join(valid.drop_first())
    }
}

/// Join the display names of the given context tags with commas.
pub fn rcxt_join(valid: &Vec<DataContext>) -> (r: String)
    ensures
        r@ == spec_rcxt_join(valid@),
{
    let mut out = String::new();
    let mut k: usize = 0;
    while k < valid.len()
        invariant
            k <= valid@.len(),
            out@ == spec_rcxt_join(valid@.subrange(0, k as int)) + (
            if k > 0 && k < valid@.len() {
                ","@
            } else {
                Seq::<char>::empty()
            }),
        decreases valid@.len() - k,
    {
        out.append(rcxt_display(&valid[k]));
        if k + 1 < valid.len() {
            out.append(",");
        }
        k = k + 1;
        proof {
            lemma_rcxt_join_snoc(valid@, k as int);
        }
    }
    proof {
        assert(valid@.subrange(0, valid@.len() as int) =~= valid@);
        assert(out@ =~= spec_rcxt_join(valid@));
    }
    out
}

/// Unfolding `spec_rcxt_join` over a prefix one element longer.
proof fn lemma_rcxt_join_snoc(s: Seq<DataContext>, k: int)
    requires
        0 < k <= s.len(),
    ensures
        spec_rcxt_join(s.subrange(0, k)) == (if k == 1 {
            spec_rcxt_name(s[0])
        } else {
            spec_rcxt_join(s.subrange(0, k - 1)) + ","@ + spec_rcxt_name(s[k - 1])
        }),
{
    assert(s.subrange(0, 1)[0] == s[0]);
    if k > 1 {
        lemma_rcxt_join_snoc_from(s, 0, k);
    }
}

/// Splitting the last element off `spec_rcxt_join` over `s[i..k]`.
proof fn lemma_rcxt_join_snoc_from(s: Seq<DataContext>, i: int, k: int)
    requires
        0 <= i < k - 1 < s.len(),
    ensures
        spec_rcxt_join(s.subrange(i, k)) == spec_rcxt_join(s.subrange(i, k - 1)) + ","@
            + spec_rcxt_name(s[k - 1]),
    decreases k - i,
{
    let a = s.subrange(i, k);
    assert(a[0] == s[i]);
    assert(a.drop_first() =~= s.subrange(i + 1, k));
    if k - 1 == i + 1 {
        assert(s.subrange(i + 1, k).len() == 1);
        assert(s.subrange(i + 1, k)[0] == s[i + 1]);
        assert(spec_rcxt_join(s.subrange(i + 1, k)) == spec_rcxt_name(s[i + 1]));
        assert(s.subrange(i, k - 1).len() == 1);
        assert(s.subrange(i, k - 1)[0] == s[i]);
        assert(spec_rcxt_join(s.subrange(i, k)) == spec_rcxt_name(s[i]) + ","@ + spec_rcxt_name(
            s[i + 1],
        ));
    } else {
        lemma_rcxt_join_snoc_from(s, i + 1, k);
        let b = s.subrange(i, k - 1);
        assert(b[0] == s[i]);
        assert(b.drop_first() =~= s.subrange(i + 1, k - 1));
        assert(spec_rcxt_name(s[i]) + ","@ + (spec_rcxt_join(s.subrange(i + 1, k - 1)) + ","@
            + spec_rcxt_name(s[k - 1])) =~= (spec_rcxt_name(s[i]) + ","@ + spec_rcxt_join(
            s.subrange(i + 1, k - 1),
        )) + ","@ + spec_rcxt_name(s[k - 1]));
    }
}

} // verus!
