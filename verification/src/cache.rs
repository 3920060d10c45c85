use vstd::prelude::*;

use crate::identity::{artifact_stem, identity_of, uuid_text_of};

verus! {

/// The file name of the artifact for a content: its identity's text form
/// with the `.svg` suffix.  Content alone decides the name, so equal
/// contents share one artifact.
pub open spec fn artifact_name_spec(content: Seq<u8>) -> Seq<u8> {
    uuid_text_of(identity_of(content)) + seq![46u8, 115u8, 118u8, 103u8]
}

/// Builds the artifact file name for a content.
pub fn artifact_file_name(content: &[u8]) -> (r: Vec<u8>)
    ensures
        r@ == artifact_name_spec(content@),
{
    let mut out = artifact_stem(content);
    out.push(46);
    out.push(115);
    out.push(118);
    out.push(103);
    proof {
        assert(out@ =~= artifact_name_spec(content@));
    }
    out
}

/// Byte-identical contents share one artifact name, and therefore one
/// cached artifact, wherever and in whichever document they occur.
pub proof fn lemma_equal_content_one_artifact(a: Seq<u8>, b: Seq<u8>)
    requires
        a == b,
    ensures
        artifact_name_spec(a) == artifact_name_spec(b),
{
}

/// The caching policy over the set of artifact names already on durable
/// storage: when the artifact for this content is present the request is a
/// hit and the renderer is not invoked; when it is absent the renderer runs
/// and, on success, its artifact joins the store.  The second component says
/// whether the renderer was invoked.
pub open spec fn ensure_step(store: Set<Seq<u8>>, content: Seq<u8>) -> (Set<Seq<u8>>, bool) {
    if store.contains(artifact_name_spec(content)) {
        (store, false)
    } else {
        (store.insert(artifact_name_spec(content)), true)
    }
}

/// Rendering the same content twice against a store that did not change in
/// between invokes the renderer at most once: the second request is a hit.
pub proof fn lemma_second_request_is_hit(store: Set<Seq<u8>>, content: Seq<u8>)
    ensures
        !ensure_step(ensure_step(store, content).0, content).1,
{
}

/// Whether the renderer must be invoked: exactly when no artifact for this
/// content exists yet.
pub fn should_render(artifact_exists: bool) -> (r: bool)
    ensures
        r == !artifact_exists,
{
    !artifact_exists
}

} // verus!
