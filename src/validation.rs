use vstd::prelude::*;

verus! {

/// Why a field was rejected at the boundary.
#[derive(Debug, Clone, PartialEq, Eq)]
pub enum ValidationReason {
    /// The field was absent.
    Required,
    /// The field was present but empty.
    Empty,
    /// The text does not form a valid hierarchical name.
    InvalidName,
    /// The value lies below the smallest accepted value.
    BelowMinimum { minimum: i64 },
    /// The value lies outside the accepted inclusive range.
    OutOfRange { low: u64, high: u64 },
}

/// A structured field error naming the field and its parent.
#[derive(Debug, Clone, PartialEq, Eq)]
pub struct ValidationError {
    pub field: String,
    pub parent: Option<String>,
    pub reason: ValidationReason,
}

pub open spec fn opt_str_view(o: Option<&str>) -> Option<Seq<char>> {
    match o {
        Some(s) => Some(s@),
        None => None,
    }
}

pub open spec fn opt_string_view(o: Option<String>) -> Option<Seq<char>> {
    match o {
        Some(s) => Some(s@),
        None => None,
    }
}

impl ValidationError {
    /// The error is about `field_name` under `parent_name`, for `reason`.
    pub open spec fn names(self, field_name: &str, parent_name: Option<&str>, reason: ValidationReason) -> bool {
        &&& self.field@ == field_name@
        &&& opt_string_view(self.parent) == opt_str_view(parent_name)
        &&& self.reason == reason
    }

    pub fn new(field_name: &str, parent_name: Option<&str>, reason: ValidationReason) -> (r: Self)
        ensures
            r.names(field_name, parent_name, reason),
    {
        let parent = match parent_name {
            Some(p) => Some(p.to_owned()),
            None => None,
        };
        ValidationError { field: field_name.to_owned(), parent, reason }
    }
}

/// A non-negative quantity of a resource.
#[derive(Debug, Clone, Copy, PartialEq, Eq, Hash)]
pub struct Allocation(i64);

impl Allocation {
    pub closed spec fn value(self) -> i64 {
        self.0
    }

    #[verifier::type_invariant]
    spec fn inv(self) -> bool {
        self.0 >= 0
    }

    pub fn new(allocation: i64) -> (r: Self)
        requires
            allocation >= 0,
        ensures
            r.value() == allocation,
    {
        Allocation(allocation)
    }

    pub fn into_inner(self) -> (r: i64)
        ensures
            r == self.value(),
            r >= 0,
    {
        proof {
            use_type_invariant(&self);
        }
        self.0
    }

    /// Accepts a present value that is at least zero.
    pub fn validate(input: Option<i64>, field_name: &str, parent_name: Option<&str>) -> (r: Result<
        Self,
        ValidationError,
    >)
        ensures
            match input {
                None => r is Err && r->Err_0.names(field_name, parent_name, ValidationReason::Required),
                Some(v) => if v >= 0 {
                    r is Ok && r->Ok_0.value() == v
                } else {
                    r is Err && r->Err_0.names(
                        field_name,
                        parent_name,
                        ValidationReason::BelowMinimum { minimum: 0 },
                    )
                },
            },
    {
        match input {
            None => Err(ValidationError::new(field_name, parent_name, ValidationReason::Required)),
            Some(v) => {
                if v < 0 {
                    Err(
                        ValidationError::new(
                            field_name,
                            parent_name,
                            ValidationReason::BelowMinimum { minimum: 0 },
                        ),
                    )
                } else {
                    Ok(Allocation(v))
                }
            },
        }
    }
}

/// The name of an executable inside a cell: any non-empty text.
#[derive(Debug, Clone, PartialEq, Eq, Hash)]
pub struct ExecutableName(String);

impl ExecutableName {
    pub closed spec fn view(&self) -> Seq<char> {
        self.0@
    }

    pub fn into_inner(self) -> (r: String)
        ensures
            r@ == self@,
    {
        self.0
    }

    pub fn as_str(&self) -> (r: &str)
        ensures
            r@ == self@,
    {
        self.0.as_str()
    }

    /// `r` is what validating `input` gives: an absent input is required,
    /// an empty one is rejected, any other text is accepted as it is.
    pub open spec fn validated(
        input: Option<String>,
        field_name: &str,
        parent_name: Option<&str>,
        r: Result<Self, ValidationError>,
    ) -> bool {
        match input {
            None => r is Err && r->Err_0.names(field_name, parent_name, ValidationReason::Required),
            Some(s) => if s@.len() == 0 {
                r is Err && r->Err_0.names(field_name, parent_name, ValidationReason::Empty)
            } else {
                r is Ok && r->Ok_0@ == s@
            },
        }
    }

    /// Accepts any present, non-empty text.
    pub fn validate(input: Option<String>, field_name: &str, parent_name: Option<&str>) -> (r: Result<
        Self,
        ValidationError,
    >)
        ensures
            Self::validated(input, field_name, parent_name, r),
    {
        match input {
            None => Err(ValidationError::new(field_name, parent_name, ValidationReason::Required)),
            Some(s) => {
                if s.as_str().is_empty() {
                    Err(ValidationError::new(field_name, parent_name, ValidationReason::Empty))
                } else {
                    Ok(ExecutableName(s))
                }
            },
        }
    }

    /// The rules for a name given at creation are those of `validate`; no
    /// length limit is imposed, so a name is never silently truncated.
    pub fn validate_for_creation(
        input: Option<String>,
        field_name: &str,
        parent_name: Option<&str>,
    ) -> (r: Result<Self, ValidationError>)
        ensures
            Self::validated(input, field_name, parent_name, r),
    {
        Self::validate(input, field_name, parent_name)
    }
}

} // verus!
