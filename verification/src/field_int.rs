use vstd::prelude::*;

verus! {

/// The unsigned integer types a field can be read as.
pub trait FieldInt: Sized {
    /// The value of this type that equals `wide`, if the type has one.
    spec fn narrowed(wide: u128) -> Option<Self>;

    fn narrow(wide: u128) -> (fit: Option<Self>)
        ensures
            fit == Self::narrowed(wide),
    ;
}

impl FieldInt for u8 {
    open spec fn narrowed(wide: u128) -> Option<u8> {
        if wide <= u8::MAX {
            Some(wide as u8)
        } else {
            None
        }
    }

    fn narrow(wide: u128) -> (fit: Option<u8>) {
        match u8::try_from(wide) {
            Ok(small) => Some(small),
            Err(_) => None,
        }
    }
}

impl FieldInt for u16 {
    open spec fn narrowed(wide: u128) -> Option<u16> {
        if wide <= u16::MAX {
            Some(wide as u16)
        } else {
            None
        }
    }

    fn narrow(wide: u128) -> (fit: Option<u16>) {
        match u16::try_from(wide) {
            Ok(small) => Some(small),
            Err(_) => None,
        }
    }
}

impl FieldInt for u32 {
    open spec fn narrowed(wide: u128) -> Option<u32> {
        if wide <= u32::MAX {
            Some(wide as u32)
        } else {
            None
        }
    }

    fn narrow(wide: u128) -> (fit: Option<u32>) {
        match u32::try_from(wide) {
            Ok(small) => Some(small),
            Err(_) => None,
        }
    }
}

impl FieldInt for u64 {
    open spec fn narrowed(wide: u128) -> Option<u64> {
        if wide <= u64::MAX {
            Some(wide as u64)
        } else {
            None
        }
    }

    fn narrow(wide: u128) -> (fit: Option<u64>) {
        match u64::try_from(wide) {
            Ok(small) => Some(small),
            Err(_) => None,
        }
    }
}

impl FieldInt for u128 {
    open spec fn narrowed(wide: u128) -> Option<u128> {
        Some(wide)
    }

    fn narrow(wide: u128) -> (fit: Option<u128>) {
        Some(wide)
    }
}

} // verus!
