//! What `cat-file` shows of an object.

use vstd::prelude::*;
use crate::kind::{kind_name, BlobKind};
use crate::objects::Object;
use crate::text::{copy_range, decimal, decimal_bytes, parse_unsigned, parse_unsigned_bytes};

verus! {

/// What `cat-file` shows: the content, the type, or the size.
#[derive(Clone, Copy, Debug, PartialEq, Eq, Structural)]
pub enum CatOptions {
    PrettyPrint,
    ShowType,
    ShowSize,
}

/// Why `cat-file` failed.
#[derive(Clone, Copy, Debug, PartialEq, Eq, Structural)]
pub enum CatError {
    /// No option was given.
    MissingOption,
    /// The size text of the object is not a number that fits in `usize`.
    BadSize,
    /// The object holds fewer bytes than its size says.
    Truncated,
}

/// What `cat-file` does: print these bytes (as lossy UTF-8, then a newline),
/// or list the object as a tree.
pub enum CatAction {
    Print(Vec<u8>),
    ListTree,
}

/// Refuses a missing option.
pub fn check_cat_option(option: Option<CatOptions>) -> (res: Result<CatOptions, CatError>)
    ensures
        match option {
            Some(o) => res == Ok::<CatOptions, CatError>(o),
            None => res == Err::<CatOptions, CatError>(CatError::MissingOption),
        },
{
    match option {
        Some(o) => Ok(o),
        None => Err(CatError::MissingOption),
    }
}

/// What `cat-file` with `option` does with `object`: its size text must
/// parse, and it must hold at least that many bytes. Then it prints those
/// bytes (or lists a tree), the kind's name, or the size as a decimal number.
pub open spec fn cat_spec(option: CatOptions, kind: BlobKind, size: Seq<u8>, buffer: Seq<u8>) -> Result<
    Result<Seq<u8>, ()>,
    CatError,
> {
    match parse_unsigned(size, usize::MAX as nat) {
        None => Err(CatError::BadSize),
        Some(n) => if buffer.len() < n {
            Err(CatError::Truncated)
        } else {
            match option {
                CatOptions::PrettyPrint => if kind == BlobKind::Tree {
                    Ok(Err(()))
                } else {
                    Ok(Ok(buffer.take(n as int)))
                },
                CatOptions::ShowType => Ok(Ok(kind_name(kind))),
                CatOptions::ShowSize => Ok(Ok(decimal(n))),
            }
        },
    }
}

/// An action seen as the bytes it prints, or `Err(())` for listing a tree.
pub open spec fn cat_action_view(a: CatAction) -> Result<Seq<u8>, ()> {
    match a {
        CatAction::Print(b) => Ok(b@),
        CatAction::ListTree => Err(()),
    }
}

/// What `cat-file` with `option` does with `object` (see `cat_spec`).
pub fn cat_file(option: CatOptions, object: &Object) -> (res: Result<CatAction, CatError>)
    ensures
        match (res, cat_spec(option, object.kind, object.size@, object.buffer@)) {
            (Ok(a), Ok(v)) => cat_action_view(a) == v,
            (Err(e), Err(f)) => e == f,
            _ => false,
        },
{
    let max: u64 = usize::MAX as u64;
    let size = match parse_unsigned_bytes(object.size.as_slice(), max) {
        None => {
            return Err(CatError::BadSize);
        },
        Some(n) => n as usize,
    };
    if object.buffer.len() < size {
        return Err(CatError::Truncated);
    }
    match option {
        CatOptions::PrettyPrint => {
            if object.kind == BlobKind::Tree {
                Ok(CatAction::ListTree)
            } else {
                let content = copy_range(object.buffer.as_slice(), 0, size);
                assert(content@ =~= object.buffer@.take(size as int));
                Ok(CatAction::Print(content))
            }
        },
        CatOptions::ShowType => Ok(CatAction::Print(object.kind.name())),
        CatOptions::ShowSize => Ok(CatAction::Print(decimal_bytes(size as u64))),
    }
}

} // verus!
