//! The whole tools surface on one registry: the methods of the two handler modules wired in
//! one call, and their default replies.
use vstd::prelude::*;
use crate::server_slice3::MethodRegistry;
use crate::text::opt_string;

verus! {

/// `n` is a method of one of the handler modules.
pub open spec fn tools_method(n: Seq<char>) -> bool {
    crate::methods_tools_slice2::registered_methods().contains(n)
        || crate::methods_tools_slice3::registered_methods().contains(n)
}

/// Registers the methods of both handler modules onto `registry`, each under its own name;
/// other names keep what they had.
pub fn register_all(registry: &mut MethodRegistry)
    ensures
        forall|n: Seq<char>| tools_method(n) ==> final(registry).lookup(n) == Some(n),
        forall|n: Seq<char>| !tools_method(n) ==> final(registry).lookup(n) == old(registry).lookup(n),
{
    crate::methods_tools_slice2::register(registry);
    let ghost mid = *registry;
    crate::methods_tools_slice3::register(registry);
    proof {
        assert forall|n: Seq<char>| tools_method(n) implies registry.lookup(n) == Some(n) by {
            if crate::methods_tools_slice3::registered_methods().contains(n) {
                let k = choose|k: int|
                    0 <= k < crate::methods_tools_slice3::registered_methods().len()
                        && crate::methods_tools_slice3::registered_methods()[k] == n;
                assert(registry.lookup(crate::methods_tools_slice3::registered_methods()[k]) == Some(
                    crate::methods_tools_slice3::registered_methods()[k],
                ));
            } else {
                let k = choose|k: int|
                    0 <= k < crate::methods_tools_slice2::registered_methods().len()
                        && crate::methods_tools_slice2::registered_methods()[k] == n;
                assert(mid.lookup(crate::methods_tools_slice2::registered_methods()[k]) == Some(
                    crate::methods_tools_slice2::registered_methods()[k],
                ));
            }
        }
    }
}

/// A fresh registry holding exactly the methods of both handler modules.
pub fn build_registry_default() -> (r: MethodRegistry)
    ensures
        forall|n: Seq<char>| #[trigger] r.lookup(n) == if tools_method(n) { Some(n) } else { None },
{
    let mut reg = MethodRegistry::new();
    proof {
        assert forall|n: Seq<char>| reg.lookup(n) is None by {
            assert(reg.entries().len() == 0);
        }
    }
    register_all(&mut reg);
    reg
}

/// Registers nothing: every method of the tools surface comes from `register_all`.
pub fn register(registry: &mut MethodRegistry)
    ensures
        *final(registry) == *old(registry),
{
}

/// The reply of a tools method with no backend behind it: that of the handler module that
/// answers `method`, `None` when neither does.
pub open spec fn default_reply_spec(method: Seq<char>, rid: Seq<char>, params: Seq<char>) -> Option<
    Seq<char>,
> {
    match crate::methods_tools_slice2::default_reply_spec(method, rid, params) {
        Some(x) => Some(x),
        None => crate::methods_tools_slice3::default_reply_spec(method, rid, params),
    }
}

/// Answers a tools method with no backend behind it (see `default_reply_spec`).
pub fn default_reply(method: &str, rid: &str, params_json: &str) -> (r: Option<String>)
    ensures
        opt_string(r) == default_reply_spec(method@, rid@, params_json@),
{
    match crate::methods_tools_slice2::default_reply(method, rid, params_json) {
        Some(x) => Some(x),
        None => crate::methods_tools_slice3::default_reply(method, rid, params_json),
    }
}

} // verus!
