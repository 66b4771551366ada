//! The type-erased settings cell [`Stg`] and the traits around it.
//!
//! A settings map stores values of distinct types through [`Stg`], a tagged
//! union over a fixed set of storable types.  A type becomes storable by
//! implementing [`Setting`], which pins down, at the specification level, how
//! a value is injected into a cell and how it is recovered from one.
//! Recovery is checked: [`Stg::unstg`] returns an error on a type mismatch,
//! and the panicking convenience form [`Stg::unstg_panic`] is verified to be
//! called only where the stored type matches.

use vstd::prelude::*;

use crate::types::errors::StgError;
use crate::types::example_types::{BoolStg, I32Stg};

verus! {

/// A type-erased settings value: one variant for each storable type.
#[derive(Debug)]
pub enum Stg {
    Bool(bool),
    Char(char),
    I32(i32),
    U32(u32),
    I64(i64),
    U64(u64),
    Usize(usize),
    Str(String),
    Unit,
    BoolStg(BoolStg),
    I32Stg(I32Stg),
}

/// The mathematical shape of a stored value: a `String` is abstracted to its
/// character sequence, every other payload is kept as it is.
pub ghost enum StgView {
    Bool(bool),
    Char(char),
    I32(i32),
    U32(u32),
    I64(i64),
    U64(u64),
    Usize(usize),
    Str(Seq<char>),
    Unit,
    BoolStg(bool),
    I32Stg(i32),
}

impl View for Stg {
    type V = StgView;

    open spec fn view(&self) -> StgView {
        match self {
            Stg::Bool(b) => StgView::Bool(*b),
            Stg::Char(c) => StgView::Char(*c),
            Stg::I32(n) => StgView::I32(*n),
            Stg::U32(n) => StgView::U32(*n),
            Stg::I64(n) => StgView::I64(*n),
            Stg::U64(n) => StgView::U64(*n),
            Stg::Usize(n) => StgView::Usize(*n),
            Stg::Str(s) => StgView::Str(s@),
            Stg::Unit => StgView::Unit,
            Stg::BoolStg(b) => StgView::BoolStg(b.value),
            Stg::I32Stg(n) => StgView::I32Stg(n.value),
        }
    }
}

impl Clone for Stg {
    /// Cloning a cell yields a cell equal to the original.
    fn clone(&self) -> (res: Stg)
        ensures
            res == *self,
    {
        match self {
            Stg::Bool(b) => Stg::Bool(*b),
            Stg::Char(c) => Stg::Char(*c),
            Stg::I32(n) => Stg::I32(*n),
            Stg::U32(n) => Stg::U32(*n),
            Stg::I64(n) => Stg::I64(*n),
            Stg::U64(n) => Stg::U64(*n),
            Stg::Usize(n) => Stg::Usize(*n),
            Stg::Str(s) => Stg::Str(s.clone()),
            Stg::Unit => Stg::Unit,
            Stg::BoolStg(b) => Stg::BoolStg(*b),
            Stg::I32Stg(n) => Stg::I32Stg(*n),
        }
    }
}

impl PartialEq for Stg {
    /// Two cells are equal when they hold the same type and, at the view
    /// level, the same value; cells of different types compare unequal.
    fn eq(&self, other: &Stg) -> (r: bool) {
        match (self, other) {
            (Stg::Bool(a), Stg::Bool(b)) => *a == *b,
            (Stg::Char(a), Stg::Char(b)) => *a == *b,
            (Stg::I32(a), Stg::I32(b)) => *a == *b,
            (Stg::U32(a), Stg::U32(b)) => *a == *b,
            (Stg::I64(a), Stg::I64(b)) => *a == *b,
            (Stg::U64(a), Stg::U64(b)) => *a == *b,
            (Stg::Usize(a), Stg::Usize(b)) => *a == *b,
            (Stg::Str(a), Stg::Str(b)) => a.eq(b),
            (Stg::Unit, Stg::Unit) => true,
            (Stg::BoolStg(a), Stg::BoolStg(b)) => a.value == b.value,
            (Stg::I32Stg(a), Stg::I32Stg(b)) => a.value == b.value,
            _ => false,
        }
    }
}

impl vstd::std_specs::cmp::PartialEqSpecImpl for Stg {
    open spec fn obeys_eq_spec() -> bool {
        true
    }

    open spec fn eq_spec(&self, other: &Stg) -> bool {
        self@ == other@
    }
}

/// Trait of the types that can be stored in a [`Stg`] cell.
///
/// `as_stg` says which cell a value is injected into, `from_stg_spec` says
/// which value, if any, a given cell yields back for this type, and
/// `lemma_stg_roundtrip` states the law binding the two: storing a value and
/// extracting it at the same type always gives the value back.
pub trait Setting: Sized {
    /// The cell that stores this value.
    spec fn as_stg(self) -> Stg;

    /// The value this type recovers from a cell, if the cell holds this type.
    spec fn from_stg_spec(s: Stg) -> Option<Self>;

    /// Storing a value and extracting it at the same type gives it back.
    proof fn lemma_stg_roundtrip(self)
        ensures
            Self::from_stg_spec(self.as_stg()) == Some(self),
    ;

    /// Turns a value into a type-erased cell.
    fn stg(self) -> (r: Stg)
        ensures
            r == self.as_stg(),
    ;

    /// Recovers a value of this type from a cell, or reports a type mismatch.
    fn from_stg(s: Stg) -> (r: Result<Self, StgError>)
        ensures
            match r {
                Ok(v) => Self::from_stg_spec(s) == Some(v),
                Err(e) => Self::from_stg_spec(s) is None && e == StgError::WrongType,
            },
    ;
}

impl Stg {
    /// Extracts the stored value at type `S`; fails with
    /// [`StgError::WrongType`] when the cell holds another type.
    pub fn unstg<S: Setting>(self) -> (r: Result<S, StgError>)
        ensures
            match r {
                Ok(v) => S::from_stg_spec(self) == Some(v),
                Err(e) => S::from_stg_spec(self) is None && e == StgError::WrongType,
            },
    {
        S::from_stg(self)
    }

    /// Extracts the stored value at type `S`.
    ///
    /// Unverified callers must know that the cell holds an `S`: on other
    /// cells the unverified counterpart of this operation would panic, so the
    /// precondition excludes them.  [`Stg::unstg`] is the checked form.
    pub fn unstg_panic<S: Setting>(self) -> (r: S)
        requires
            S::from_stg_spec(self) is Some,
        ensures
            S::from_stg_spec(self) == Some(r),
    {
        match S::from_stg(self) {
            Ok(v) => v,
            Err(_) => vstd::pervasive::unreached(),
        }
    }
}

/// A cell is itself storable; it stores as itself.
impl Setting for Stg {
    open spec fn as_stg(self) -> Stg {
        self
    }

    open spec fn from_stg_spec(s: Stg) -> Option<Stg> {
        Some(s)
    }

    proof fn lemma_stg_roundtrip(self) {
    }

    fn stg(self) -> (r: Stg) {
        self
    }

    fn from_stg(s: Stg) -> (r: Result<Stg, StgError>) {
        Ok(s)
    }
}

impl Setting for bool {
    open spec fn as_stg(self) -> Stg {
        Stg::Bool(self)
    }

    open spec fn from_stg_spec(s: Stg) -> Option<bool> {
        match s {
            Stg::Bool(b) => Some(b),
            _ => None,
        }
    }

    proof fn lemma_stg_roundtrip(self) {
    }

    fn stg(self) -> (r: Stg) {
        Stg::Bool(self)
    }

    fn from_stg(s: Stg) -> (r: Result<bool, StgError>) {
        match s {
            Stg::Bool(b) => Ok(b),
            _ => Err(StgError::WrongType),
        }
    }
}

impl Setting for char {
    open spec fn as_stg(self) -> Stg {
        Stg::Char(self)
    }

    open spec fn from_stg_spec(s: Stg) -> Option<char> {
        match s {
            Stg::Char(c) => Some(c),
            _ => None,
        }
    }

    proof fn lemma_stg_roundtrip(self) {
    }

    fn stg(self) -> (r: Stg) {
        Stg::Char(self)
    }

    fn from_stg(s: Stg) -> (r: Result<char, StgError>) {
        match s {
            Stg::Char(c) => Ok(c),
            _ => Err(StgError::WrongType),
        }
    }
}

impl Setting for i32 {
    open spec fn as_stg(self) -> Stg {
        Stg::I32(self)
    }

    open spec fn from_stg_spec(s: Stg) -> Option<i32> {
        match s {
            Stg::I32(n) => Some(n),
            _ => None,
        }
    }

    proof fn lemma_stg_roundtrip(self) {
    }

    fn stg(self) -> (r: Stg) {
        Stg::I32(self)
    }

    fn from_stg(s: Stg) -> (r: Result<i32, StgError>) {
        match s {
            Stg::I32(n) => Ok(n),
            _ => Err(StgError::WrongType),
        }
    }
}

impl Setting for u32 {
    open spec fn as_stg(self) -> Stg {
        Stg::U32(self)
    }

    open spec fn from_stg_spec(s: Stg) -> Option<u32> {
        match s {
            Stg::U32(n) => Some(n),
            _ => None,
        }
    }

    proof fn lemma_stg_roundtrip(self) {
    }

    fn stg(self) -> (r: Stg) {
        Stg::U32(self)
    }

    fn from_stg(s: Stg) -> (r: Result<u32, StgError>) {
        match s {
            Stg::U32(n) => Ok(n),
            _ => Err(StgError::WrongType),
        }
    }
}

impl Setting for i64 {
    open spec fn as_stg(self) -> Stg {
        Stg::I64(self)
    }

    open spec fn from_stg_spec(s: Stg) -> Option<i64> {
        match s {
            Stg::I64(n) => Some(n),
            _ => None,
        }
    }

    proof fn lemma_stg_roundtrip(self) {
    }

    fn stg(self) -> (r: Stg) {
        Stg::I64(self)
    }

    fn from_stg(s: Stg) -> (r: Result<i64, StgError>) {
        match s {
            Stg::I64(n) => Ok(n),
            _ => Err(StgError::WrongType),
        }
    }
}

impl Setting for u64 {
    open spec fn as_stg(self) -> Stg {
        Stg::U64(self)
    }

    open spec fn from_stg_spec(s: Stg) -> Option<u64> {
        match s {
            Stg::U64(n) => Some(n),
            _ => None,
        }
    }

    proof fn lemma_stg_roundtrip(self) {
    }

    fn stg(self) -> (r: Stg) {
        Stg::U64(self)
    }

    fn from_stg(s: Stg) -> (r: Result<u64, StgError>) {
        match s {
            Stg::U64(n) => Ok(n),
            _ => Err(StgError::WrongType),
        }
    }
}

impl Setting for usize {
    open spec fn as_stg(self) -> Stg {
        Stg::Usize(self)
    }

    open spec fn from_stg_spec(s: Stg) -> Option<usize> {
        match s {
            Stg::Usize(n) => Some(n),
            _ => None,
        }
    }

    proof fn lemma_stg_roundtrip(self) {
    }

    fn stg(self) -> (r: Stg) {
        Stg::Usize(self)
    }

    fn from_stg(s: Stg) -> (r: Result<usize, StgError>) {
        match s {
            Stg::Usize(n) => Ok(n),
            _ => Err(StgError::WrongType),
        }
    }
}

impl Setting for String {
    open spec fn as_stg(self) -> Stg {
        Stg::Str(self)
    }

    open spec fn from_stg_spec(s: Stg) -> Option<String> {
        match s {
            Stg::Str(t) => Some(t),
            _ => None,
        }
    }

    proof fn lemma_stg_roundtrip(self) {
    }

    fn stg(self) -> (r: Stg) {
        Stg::Str(self)
    }

    fn from_stg(s: Stg) -> (r: Result<String, StgError>) {
        match s {
            Stg::Str(t) => Ok(t),
            _ => Err(StgError::WrongType),
        }
    }
}

impl Setting for () {
    open spec fn as_stg(self) -> Stg {
        Stg::Unit
    }

    open spec fn from_stg_spec(s: Stg) -> Option<()> {
        match s {
            Stg::Unit => Some(()),
            _ => None,
        }
    }

    proof fn lemma_stg_roundtrip(self) {
    }

    fn stg(self) -> (r: Stg) {
        Stg::Unit
    }

    fn from_stg(s: Stg) -> (r: Result<(), StgError>) {
        match s {
            Stg::Unit => Ok(()),
            _ => Err(StgError::WrongType),
        }
    }
}

impl Setting for BoolStg {
    open spec fn as_stg(self) -> Stg {
        Stg::BoolStg(self)
    }

    open spec fn from_stg_spec(s: Stg) -> Option<BoolStg> {
        match s {
            Stg::BoolStg(b) => Some(b),
            _ => None,
        }
    }

    proof fn lemma_stg_roundtrip(self) {
    }

    fn stg(self) -> (r: Stg) {
        Stg::BoolStg(self)
    }

    fn from_stg(s: Stg) -> (r: Result<BoolStg, StgError>) {
        match s {
            Stg::BoolStg(b) => Ok(b),
            _ => Err(StgError::WrongType),
        }
    }
}

impl Setting for I32Stg {
    open spec fn as_stg(self) -> Stg {
        Stg::I32Stg(self)
    }

    open spec fn from_stg_spec(s: Stg) -> Option<I32Stg> {
        match s {
            Stg::I32Stg(n) => Some(n),
            _ => None,
        }
    }

    proof fn lemma_stg_roundtrip(self) {
    }

    fn stg(self) -> (r: Stg) {
        Stg::I32Stg(self)
    }

    fn from_stg(s: Stg) -> (r: Result<I32Stg, StgError>) {
        match s {
            Stg::I32Stg(n) => Ok(n),
            _ => Err(StgError::WrongType),
        }
    }
}

/// Extraction out of containers that may hold a cell, such as the
/// `Option<&Stg>` returned by a settings lookup.
pub trait StgTrait: Sized {
    /// The cell held by this container, if any.
    spec fn held(self) -> Option<Stg>;

    /// Extracts the held value at type `S`; fails with
    /// [`StgError::Missing`] when no cell is held and with
    /// [`StgError::WrongType`] when the held cell stores another type.
    fn unstg<S: Setting>(self) -> (r: Result<S, StgError>)
        ensures
            match self.held() {
                None => r == Err::<S, StgError>(StgError::Missing),
                Some(v) => match r {
                    Ok(x) => S::from_stg_spec(v) == Some(x),
                    Err(e) => S::from_stg_spec(v) is None && e == StgError::WrongType,
                },
            },
    ;

    /// Extracts the held value at type `S`.
    ///
    /// Unverified callers must know that a cell is held and stores an `S`:
    /// elsewhere the unverified counterpart of this operation would panic, so
    /// the precondition excludes those cases.  [`StgTrait::unstg`] is the
    /// checked form.
    fn unstg_panic<S: Setting>(self) -> (r: S)
        requires
            self.held() is Some,
            S::from_stg_spec(self.held()->0) is Some,
        ensures
            S::from_stg_spec(self.held()->0) == Some(r),
    ;
}

impl StgTrait for Option<&Stg> {
    open spec fn held(self) -> Option<Stg> {
        match self {
            Some(v) => Some(*v),
            None => None,
        }
    }

    fn unstg<S: Setting>(self) -> (r: Result<S, StgError>) {
        match self {
            Some(v) => v.clone().unstg::<S>(),
            None => Err(StgError::Missing),
        }
    }

    fn unstg_panic<S: Setting>(self) -> (r: S) {
        match self {
            Some(v) => v.clone().unstg_panic::<S>(),
            None => vstd::pervasive::unreached(),
        }
    }
}

} // verus!
