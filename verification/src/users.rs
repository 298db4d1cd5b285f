//! The two decisions of the user directory that need no database: by which
//! key a user is looked up, and where a page of the user list begins.

use vstd::prelude::*;

verus! {

/// The key by which a user is looked up.
#[derive(Debug, Clone, Copy, PartialEq, Eq, Structural)]
pub enum UserKey {
    Id,
    Name,
    Email,
    Token,
    /// No key was given: there is nobody to look for.
    Nothing,
}

/// The key that a lookup goes by when several may be given: the id before
/// the name, the name before the e-mail address, the address before the
/// verification token.
pub open spec fn key_for(has_id: bool, has_name: bool, has_email: bool, has_token: bool) -> UserKey {
    if has_id {
        UserKey::Id
    } else if has_name {
        UserKey::Name
    } else if has_email {
        UserKey::Email
    } else if has_token {
        UserKey::Token
    } else {
        UserKey::Nothing
    }
}

/// Picks the key of a user lookup from what the caller supplied.
pub fn user_key(
    user_id: Option<u128>,
    name: Option<&str>,
    email: Option<&str>,
    token: Option<&str>,
) -> (key: UserKey)
    ensures
        key == key_for(user_id is Some, name is Some, email is Some, token is Some),
{
    if user_id.is_some() {
        UserKey::Id
    } else if name.is_some() {
        UserKey::Name
    } else if email.is_some() {
        UserKey::Email
    } else if token.is_some() {
        UserKey::Token
    } else {
        UserKey::Nothing
    }
}

/// The number of users that lie before page `page` when a page holds `limit`
/// users. Pages count from one, and the page size is taken in 32 bits.
pub open spec fn offset_of(page: u32, limit: usize) -> int {
    (page - 1) * (limit as u32)
}

/// Where page `page` of the user list begins, or `None` when there is no
/// such page (pages count from one) or the offset does not fit in 32 bits.
pub fn page_offset(page: u32, limit: usize) -> (offset: Option<u32>)
    ensures
        offset == if page >= 1 && offset_of(page, limit) <= u32::MAX {
            Some(offset_of(page, limit) as u32)
        } else {
            None
        },
{
    if page == 0 {
        return None;
    }
    let width: u32 = #[verifier::truncate]
    (limit as u32);
    let before: u64 = (page - 1) as u64;
    assert(before * width <= 0xffff_ffff * 0xffff_ffff) by (nonlinear_arith)
        requires
            0 <= before <= 0xffff_ffff,
            0 <= width <= 0xffff_ffff,
    ;
    let product: u64 = before * (width as u64);
    if product <= 0xffff_ffff {
        Some(product as u32)
    } else {
        None
    }
}

} // verus!
