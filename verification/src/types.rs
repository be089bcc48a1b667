//! Core data types: items, edges, their views, and validation.

use vstd::prelude::*;

use crate::text::lex_le;

verus! {

/// Lifecycle state of an item.
#[derive(Debug, Clone, Copy, PartialEq, Eq, Structural)]
pub enum Status {
    Open,
    InProgress,
    Blocked,
    Closed,
}

impl Status {
    /// Which status changes the lifecycle allows: any state may stay put,
    /// Open, InProgress and Blocked may move anywhere, and Closed may only
    /// be reopened.
    pub open spec fn spec_can_transition_to(self, target: Status) -> bool {
        self == target || self != Status::Closed || target == Status::Open
    }

    /// Check if a status transition is valid.
    pub fn can_transition_to(&self, target: &Status) -> (r: bool)
        ensures
            r == self.spec_can_transition_to(*target),
    {
        match (self, target) {
            (Status::Open, _) => true,
            (Status::InProgress, _) => true,
            (Status::Blocked, _) => true,
            (Status::Closed, Status::Open) => true,
            (Status::Closed, Status::Closed) => true,
            _ => false,
        }
    }
}

/// Kind of a directed relationship between items.
#[derive(Debug, Clone, Copy, PartialEq, Eq, Hash, Structural)]
pub enum EdgeKind {
    /// `to_id` blocks `from_id`: the source is not ready until the target closes.
    Blocks,
    /// `from_id` is a child of `to_id`: the parent is not ready while a child is open.
    ParentChild,
    /// Informational link with no blocking semantics.
    Related,
}

impl EdgeKind {
    /// Whether this edge kind participates in readiness and cycle checks.
    pub open spec fn spec_is_blocking(self) -> bool {
        self == EdgeKind::Blocks || self == EdgeKind::ParentChild
    }

    /// Returns true if this edge type affects the ready set.
    pub fn is_blocking(&self) -> (r: bool)
        ensures
            r == self.spec_is_blocking(),
    {
        match self {
            EdgeKind::Blocks => true,
            EdgeKind::ParentChild => true,
            EdgeKind::Related => false,
        }
    }
}

/// Mathematical view of an item: every text field as a character sequence.
#[verifier::ext_equal]
pub struct ItemView {
    pub id: Seq<char>,
    pub title: Seq<char>,
    pub description: Option<Seq<char>>,
    pub status: Status,
    pub priority: u8,
    pub labels: Seq<Seq<char>>,
    pub created_at: Seq<char>,
    pub updated_at: Seq<char>,
    pub closed_at: Option<Seq<char>>,
    pub close_reason: Option<Seq<char>>,
}

/// The unit of work. Timestamps are RFC 3339 UTC text; for the text the
/// store's clock produces, chronological order agrees with lexicographic
/// order (it would not for years beyond 9999 or before 1970, which the
/// clock does not emit).
#[derive(Debug, PartialEq)]
pub struct Item {
    /// Unique identifier: `eg-` followed by ten lowercase hex characters.
    pub id: String,
    /// Short human label, 1..=500 characters, no control characters.
    pub title: String,
    /// Optional longer description; an empty string is distinct from absent.
    pub description: Option<String>,
    /// Current lifecycle state.
    pub status: Status,
    /// Priority 0..=4; 0 is most urgent.
    pub priority: u8,
    /// Tags; each matches `[A-Za-z0-9_-]+`.
    pub labels: Vec<String>,
    /// Creation instant.
    pub created_at: String,
    /// Last mutation instant.
    pub updated_at: String,
    /// Closure instant; present exactly when the status is Closed.
    pub closed_at: Option<String>,
    /// Optional rationale recorded on close.
    pub close_reason: Option<String>,
}

impl View for Item {
    type V = ItemView;

    open spec fn view(&self) -> ItemView {
        ItemView {
            id: self.id@,
            title: self.title@,
            description: match self.description {
                Some(ref d) => Some(d@),
                None => None,
            },
            status: self.status,
            priority: self.priority,
            labels: self.labels.deep_view(),
            created_at: self.created_at@,
            updated_at: self.updated_at@,
            closed_at: match self.closed_at {
                Some(ref c) => Some(c@),
                None => None,
            },
            close_reason: match self.close_reason {
                Some(ref c) => Some(c@),
                None => None,
            },
        }
    }
}

impl DeepView for Item {
    type V = ItemView;

    open spec fn deep_view(&self) -> ItemView {
        self.view()
    }
}

/// Mathematical view of an edge record.
#[verifier::ext_equal]
pub struct EdgeView {
    pub from_id: Seq<char>,
    pub to_id: Seq<char>,
    pub kind: EdgeKind,
    pub created_at: Seq<char>,
    pub deleted: bool,
}

/// A directed, typed relationship between two items, identified by the
/// triple `(from_id, to_id, kind)`. A record with `deleted` set is a
/// tombstone: it removes the triple.
#[derive(Debug, PartialEq)]
pub struct Edge {
    /// The item that has the dependency.
    pub from_id: String,
    /// The item being depended on.
    pub to_id: String,
    /// The kind of the relationship.
    pub kind: EdgeKind,
    /// When the edge record was written.
    pub created_at: String,
    /// Tombstone marker.
    pub deleted: bool,
}

impl View for Edge {
    type V = EdgeView;

    open spec fn view(&self) -> EdgeView {
        EdgeView {
            from_id: self.from_id@,
            to_id: self.to_id@,
            kind: self.kind,
            created_at: self.created_at@,
            deleted: self.deleted,
        }
    }
}

impl DeepView for Edge {
    type V = EdgeView;

    open spec fn deep_view(&self) -> EdgeView {
        self.view()
    }
}

fn clone_opt_string(s: &Option<String>) -> (r: Option<String>)
    ensures
        match (s, &r) {
            (Some(a), Some(b)) => a@ == b@,
            (None, None) => true,
            _ => false,
        },
{
    match s {
        Some(x) => Some(x.clone()),
        None => None,
    }
}

fn clone_labels(ls: &Vec<String>) -> (r: Vec<String>)
    ensures
        r.deep_view() == ls.deep_view(),
{
    let mut r: Vec<String> = Vec::new();
    let mut i: usize = 0;
    while i < ls.len()
        invariant
            i <= ls.len(),
            r@.len() == i,
            forall|j: int| 0 <= j < i ==> #[trigger] r@[j]@ == ls@[j]@,
        decreases ls.len() - i,
    {
        r.push(ls[i].clone());
        i = i + 1;
    }
    proof {
        assert(r.deep_view() =~= ls.deep_view());
    }
    r
}

impl Clone for Item {
    fn clone(&self) -> (r: Item)
        ensures
            r@ == self@,
    {
        let r = Item {
            id: self.id.clone(),
            title: self.title.clone(),
            description: clone_opt_string(&self.description),
            status: self.status,
            priority: self.priority,
            labels: clone_labels(&self.labels),
            created_at: self.created_at.clone(),
            updated_at: self.updated_at.clone(),
            closed_at: clone_opt_string(&self.closed_at),
            close_reason: clone_opt_string(&self.close_reason),
        };
        proof {
            assert(r@ =~= self@);
        }
        r
    }
}

impl Clone for Edge {
    fn clone(&self) -> (r: Edge)
        ensures
            r@ == self@,
    {
        let r = Edge {
            from_id: self.from_id.clone(),
            to_id: self.to_id.clone(),
            kind: self.kind,
            created_at: self.created_at.clone(),
            deleted: self.deleted,
        };
        proof {
            assert(r@ =~= self@);
        }
        r
    }
}

/// Longest accepted title, in characters.
pub const TITLE_MAX: usize = 500;

/// A Unicode control character: the C0 range, DEL, and the C1 range.
pub open spec fn is_control_char(c: char) -> bool {
    (c as u32) < 0x20 || (0x7f <= (c as u32) && (c as u32) <= 0x9f)
}

/// A character allowed in a label: ASCII alphanumeric, hyphen or underscore.
pub open spec fn label_char_ok(c: char) -> bool {
    ('a' <= c && c <= 'z') || ('A' <= c && c <= 'Z') || ('0' <= c && c <= '9') || c == '-' || c
        == '_'
}

/// A well-formed label: non-empty, every character from `[A-Za-z0-9_-]`.
pub open spec fn label_ok(l: Seq<char>) -> bool {
    l.len() > 0 && forall|i: int| 0 <= i < l.len() ==> label_char_ok(#[trigger] l[i])
}

/// The first label in the list that is not well-formed, if any.
pub open spec fn first_bad_label(ls: Seq<Seq<char>>) -> Option<Seq<char>>
    decreases ls.len(),
{
    if ls.len() == 0 {
        None
    } else if !label_ok(ls[0]) {
        Some(ls[0])
    } else {
        first_bad_label(ls.drop_first())
    }
}

/// Mathematical view of a validation error.
pub enum ValidationErrorView {
    EmptyTitle,
    TitleTooLong,
    InvalidCharacters,
    InvalidPriority,
    InvalidLabel(Seq<char>),
    InvalidTimestamp,
    ClosedAtWithoutClosedStatus,
}

/// A field of an item failed one of the data-model constraints.
#[derive(Debug, PartialEq)]
pub enum ValidationError {
    EmptyTitle,
    TitleTooLong,
    InvalidCharacters,
    InvalidPriority,
    InvalidLabel(String),
    InvalidTimestamp,
    ClosedAtWithoutClosedStatus,
}

impl View for ValidationError {
    type V = ValidationErrorView;

    open spec fn view(&self) -> ValidationErrorView {
        match self {
            ValidationError::EmptyTitle => ValidationErrorView::EmptyTitle,
            ValidationError::TitleTooLong => ValidationErrorView::TitleTooLong,
            ValidationError::InvalidCharacters => ValidationErrorView::InvalidCharacters,
            ValidationError::InvalidPriority => ValidationErrorView::InvalidPriority,
            ValidationError::InvalidLabel(l) => ValidationErrorView::InvalidLabel(l@),
            ValidationError::InvalidTimestamp => ValidationErrorView::InvalidTimestamp,
            ValidationError::ClosedAtWithoutClosedStatus => {
                ValidationErrorView::ClosedAtWithoutClosedStatus
            },
        }
    }
}

impl Clone for ValidationError {
    fn clone(&self) -> (r: ValidationError)
        ensures
            r@ == self@,
    {
        match self {
            ValidationError::EmptyTitle => ValidationError::EmptyTitle,
            ValidationError::TitleTooLong => ValidationError::TitleTooLong,
            ValidationError::InvalidCharacters => ValidationError::InvalidCharacters,
            ValidationError::InvalidPriority => ValidationError::InvalidPriority,
            ValidationError::InvalidLabel(l) => ValidationError::InvalidLabel(l.clone()),
            ValidationError::InvalidTimestamp => ValidationError::InvalidTimestamp,
            ValidationError::ClosedAtWithoutClosedStatus => {
                ValidationError::ClosedAtWithoutClosedStatus
            },
        }
    }
}

/// What checking the title yields: required, at most `TITLE_MAX` characters,
/// no control characters.
pub open spec fn title_check(t: Seq<char>) -> Result<(), ValidationErrorView> {
    if t.len() == 0 {
        Err(ValidationErrorView::EmptyTitle)
    } else if t.len() > TITLE_MAX {
        Err(ValidationErrorView::TitleTooLong)
    } else if exists|i: int| 0 <= i < t.len() && is_control_char(#[trigger] t[i]) {
        Err(ValidationErrorView::InvalidCharacters)
    } else {
        Ok(())
    }
}

/// What validating an item yields: the checks run in a fixed order and the
/// first failure is reported.
pub open spec fn spec_validate(v: ItemView) -> Result<(), ValidationErrorView> {
    match title_check(v.title) {
        Err(e) => Err(e),
        Ok(()) => if v.priority > 4 {
            Err(ValidationErrorView::InvalidPriority)
        } else {
            match first_bad_label(v.labels) {
                Some(l) => Err(ValidationErrorView::InvalidLabel(l)),
                None => if !lex_le(v.created_at, v.updated_at) {
                    Err(ValidationErrorView::InvalidTimestamp)
                } else if v.closed_at is Some && v.status != Status::Closed {
                    Err(ValidationErrorView::ClosedAtWithoutClosedStatus)
                } else {
                    Ok(())
                },
            }
        },
    }
}

/// A valid item: every data-model constraint holds.
pub open spec fn valid_item(v: ItemView) -> bool {
    spec_validate(v) is Ok
}

fn title_ok(title: &str) -> (r: Result<(), ValidationError>)
    ensures
        match r {
            Ok(()) => title_check(title@) is Ok,
            Err(e) => title_check(title@) == Err::<(), ValidationErrorView>(e@),
        },
{
    let n: usize = title.unicode_len();
    if n == 0 {
        return Err(ValidationError::EmptyTitle);
    }
    if n > TITLE_MAX {
        return Err(ValidationError::TitleTooLong);
    }
    let mut i: usize = 0;
    while i < n
        invariant
            n == title@.len(),
            0 < n <= TITLE_MAX,
            i <= n,
            forall|j: int| 0 <= j < i ==> !is_control_char(#[trigger] title@[j]),
        decreases n - i,
    {
        let c = title.get_char(i);
        if (c as u32) < 0x20 || (0x7f <= (c as u32) && (c as u32) <= 0x9f) {
            proof {
                assert(is_control_char(title@[i as int]));
            }
            return Err(ValidationError::InvalidCharacters);
        }
        i = i + 1;
    }
    Ok(())
}

fn label_is_ok(l: &str) -> (r: bool)
    ensures
        r == label_ok(l@),
{
    let n: usize = l.unicode_len();
    if n == 0 {
        return false;
    }
    let mut i: usize = 0;
    while i < n
        invariant
            n == l@.len(),
            i <= n,
            forall|j: int| 0 <= j < i ==> label_char_ok(#[trigger] l@[j]),
        decreases n - i,
    {
        let c = l.get_char(i);
        let ok = ('a' <= c && c <= 'z') || ('A' <= c && c <= 'Z') || ('0' <= c && c <= '9') || c
            == '-' || c == '_';
        if !ok {
            return false;
        }
        i = i + 1;
    }
    true
}

/// Validate a list of labels, reporting the first bad one.
pub fn check_labels(ls: &Vec<String>) -> (r: Result<(), ValidationError>)
    ensures
        match r {
            Ok(()) => first_bad_label(ls.deep_view()) is None,
            Err(e) => first_bad_label(ls.deep_view()) matches Some(l) && e@
                == ValidationErrorView::InvalidLabel(l),
        },
{
    let mut i: usize = 0;
    proof {
        assert(ls.deep_view().skip(0) =~= ls.deep_view());
    }
    while i < ls.len()
        invariant
            i <= ls.len(),
            first_bad_label(ls.deep_view()) == first_bad_label(ls.deep_view().skip(i as int)),
            forall|j: int| 0 <= j < i ==> label_ok(#[trigger] ls.deep_view()[j]),
        decreases ls.len() - i,
    {
        proof {
            assert(ls.deep_view().skip(i as int).len() > 0);
            assert(ls.deep_view().skip(i as int)[0] == ls.deep_view()[i as int]);
            assert(ls.deep_view().skip(i as int).drop_first() =~= ls.deep_view().skip(i + 1));
        }
        if !label_is_ok(ls[i].as_str()) {
            return Err(ValidationError::InvalidLabel(ls[i].clone()));
        }
        i = i + 1;
    }
    proof {
        assert(ls.deep_view().skip(ls.len() as int) =~= Seq::<Seq<char>>::empty());
    }
    Ok(())
}

impl Item {
    /// Validate the item's fields against the data-model constraints.
    pub fn validate(&self) -> (r: Result<(), ValidationError>)
        ensures
            match r {
                Ok(()) => spec_validate(self@) is Ok,
                Err(e) => spec_validate(self@) == Err::<(), ValidationErrorView>(e@),
            },
    {
        if let Err(e) = title_ok(self.title.as_str()) {
            return Err(e);
        }
        if self.priority > 4 {
            return Err(ValidationError::InvalidPriority);
        }
        if let Err(e) = check_labels(&self.labels) {
            return Err(e);
        }
        if !crate::text::str_lex_le(self.created_at.as_str(), self.updated_at.as_str()) {
            return Err(ValidationError::InvalidTimestamp);
        }
        if self.closed_at.is_some() && !matches!(self.status, Status::Closed) {
            return Err(ValidationError::ClosedAtWithoutClosedStatus);
        }
        Ok(())
    }
}


impl ValidationError {
    /// A human-readable description of the error.
    pub fn message(&self) -> String {
        match self {
            ValidationError::EmptyTitle => String::from_str("title cannot be empty"),
            ValidationError::TitleTooLong => String::from_str("title exceeds 500 characters"),
            ValidationError::InvalidCharacters => String::from_str(
                "title contains control characters",
            ),
            ValidationError::InvalidPriority => String::from_str("priority must be 0-4"),
            ValidationError::InvalidLabel(label) => {
                let mut s = String::from_str("invalid label '");
                s.append(label.as_str());
                s.append("': must be alphanumeric with hyphens/underscores");
                s
            },
            ValidationError::InvalidTimestamp => String::from_str(
                "updated_at cannot be before created_at",
            ),
            ValidationError::ClosedAtWithoutClosedStatus => String::from_str(
                "closed_at set but status is not Closed",
            ),
        }
    }
}

} // verus!
