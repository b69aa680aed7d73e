//! Fallible conversions between the bencode value types.

use vstd::prelude::*;

verus! {

/// A conversion from `T` that can fail; over the abstract value alone,
/// `can_convert` says exactly when it succeeds and `convert_spec` what it
/// yields.
pub trait TryFrom<T: View>: Sized + DeepView {
    type Err;

    spec fn can_convert(v: T::V) -> bool;

    spec fn convert_spec(v: T::V) -> <Self as DeepView>::V;

    fn convert_from(t: T) -> (r: Result<Self, Self::Err>)
        ensures
            (r is Ok) == Self::can_convert(t@),
            r matches Ok(a) ==> a.deep_view() == Self::convert_spec(t@),
    ;
}

/// The mirror of `TryFrom`, available on the value being converted.
pub trait TryInto<T: DeepView>: Sized + View {
    type Err;

    spec fn can_convert_into(v: Self::V) -> bool;

    spec fn convert_into_spec(v: Self::V) -> <T as DeepView>::V;

    fn convert_into(self) -> (r: Result<T, Self::Err>)
        ensures
            (r is Ok) == Self::can_convert_into(self@),
            r matches Ok(a) ==> a.deep_view() == Self::convert_into_spec(self@),
    ;
}

impl<T: View, U: TryFrom<T>> TryInto<U> for T {
    type Err = U::Err;

    open spec fn can_convert_into(v: T::V) -> bool {
        U::can_convert(v)
    }

    open spec fn convert_into_spec(v: T::V) -> <U as DeepView>::V {
        U::convert_spec(v)
    }

    fn convert_into(self) -> (r: Result<U, U::Err>) {
        U::convert_from(self)
    }
}

} // verus!
