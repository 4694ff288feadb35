use vstd::prelude::*;

verus! {

/// `s` starts with a `~` that stands for the user's home directory: alone, or
/// followed by a path separator.
pub open spec fn names_home(s: Seq<char>) -> bool {
    s.len() > 0 && s[0] == '~' && (s.len() == 1 || s[1] == '/' || s[1] == '\\')
}

/// `r` is `s` with its leading `~` replaced by some text: it ends with the
/// rest of `s`.
pub open spec fn home_replaced(s: Seq<char>, r: Seq<char>) -> bool {
    &&& s.len() > 0
    &&& r.len() >= s.len() - 1
    &&& r.subrange(r.len() - (s.len() - 1), r.len() as int) == s.drop_first()
}

/// Relies on shellexpand::tilde: a path that does not start with `~` followed
/// by nothing or a separator comes back unchanged; one that does comes back
/// either unchanged (no home directory is known) or with the `~` replaced by
/// the home directory.
#[verifier::external_body]
fn tilde(path: &str) -> (r: String)
    ensures
        !names_home(path@) ==> r@ == path@,
        names_home(path@) ==> r@ == path@ || home_replaced(path@, r@),
{
    shellexpand::tilde(path).into_owned()
}

/// The path of a configuration file with a leading `~` expanded to the
/// user's home directory. Paths that do not name the home directory are
/// returned as they are.
pub fn expand_config_path(path: &str) -> (r: String)
    ensures
        !names_home(path@) ==> r@ == path@,
        names_home(path@) ==> r@ == path@ || home_replaced(path@, r@),
{
    tilde(path)
}

} // verus!
