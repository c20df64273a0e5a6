//! What a post shows: its text and attachment links, following forwarded
//! posts a bounded number of steps.

use vstd::prelude::*;
use crate::post::{ForwardRef, Post};

verus! {

/// The most posts a chain of forwards is followed through.
pub const MAX_FORWARD_DEPTH: usize = 8;

/// The body, then each attachment URL on a line of its own (no leading line
/// break when the body is empty).
pub open spec fn joined_content(body: Seq<char>, urls: Seq<Seq<char>>) -> Seq<char>
    decreases urls.len(),
{
    if urls.len() == 0 {
        body
    } else {
        let prev = joined_content(body, urls.drop_last());
        if prev.len() == 0 {
            urls.last()
        } else {
            prev + seq!['\n'] + urls.last()
        }
    }
}

pub open spec fn url_views(urls: Seq<String>) -> Seq<Seq<char>> {
    urls.map_values(|u: String| u@)
}

/// The content of a post itself, or `None` when it would be empty.
pub open spec fn post_content(p: Post) -> Option<Seq<char>> {
    let c = joined_content(p.body@, url_views(p.attachments@));
    if c.len() == 0 {
        None
    } else {
        Some(c)
    }
}

pub open spec fn content_view(c: Option<String>) -> Option<Seq<char>> {
    match c {
        Some(s) => Some(s@),
        None => None,
    }
}

/// The next step in finding what a chain of posts shows.
pub enum Resolution {
    /// Finished: the content found, or `None` when there is none.
    Content(Option<String>),
    /// The last post forwards this one: fetch it, append it to the chain and
    /// ask again; when it cannot be fetched, the content is `None`.
    Fetch(ForwardRef),
}

/// Some post of `chain` has id `id`.
pub open spec fn chain_has(chain: Seq<Post>, id: u64) -> bool {
    exists|i: int| 0 <= i < chain.len() && #[trigger] chain[i].id == id
}

/// The content of `post` itself: its body and attachment URLs, one per line.
pub fn find_content(post: &Post) -> (r: Option<String>)
    ensures
        content_view(r) == post_content(*post),
{
    let urls = &post.attachments;
    let mut text = post.body.clone();
    let mut i: usize = 0;
    while i < urls.len()
        invariant
            i <= urls@.len(),
            text@ == joined_content(post.body@, url_views(urls@.take(i as int))),
        decreases urls@.len() - i,
    {
        proof {
            reveal_strlit("\n");
            assert(url_views(urls@.take(i + 1)).drop_last() =~= url_views(urls@.take(i as int)));
            assert(url_views(urls@.take(i + 1)).last() == urls@[i as int]@);
        }
        if !text.as_str().is_empty() {
            text.append("\n");
        }
        text.append(urls[i].as_str());
        i = i + 1;
    }
    assert(urls@.take(urls@.len() as int) =~= urls@);
    if text.as_str().is_empty() {
        None
    } else {
        Some(text)
    }
}

/// Decides the next step for `chain`: the post to show followed by the posts
/// fetched so far, each forwarded by the one before it. A forward to a post
/// already in the chain, or past `MAX_FORWARD_DEPTH` posts, has no content.
pub fn resolve_step(chain: &Vec<Post>) -> (r: Resolution)
    requires
        chain@.len() > 0,
    ensures
        ({
            let last = chain@.last();
            match last.forward {
                None => r matches Resolution::Content(c) && content_view(c) == post_content(last),
                Some(f) => if chain_has(chain@, f.post_id) || chain@.len() >= MAX_FORWARD_DEPTH {
                    r matches Resolution::Content(None)
                } else {
                    r == Resolution::Fetch(f)
                },
            }
        }),
{
    let last = &chain[chain.len() - 1];
    match last.forward {
        None => Resolution::Content(find_content(last)),
        Some(f) => {
            if chain.len() >= MAX_FORWARD_DEPTH {
                return Resolution::Content(None);
            }
            let mut i: usize = 0;
            while i < chain.len()
                invariant
                    i <= chain@.len(),
                    chain@.len() > 0,
                    chain@.last().forward == Some(f),
                    forall|j: int| 0 <= j < i ==> chain@[j].id != f.post_id,
                decreases chain@.len() - i,
            {
                if chain[i].id == f.post_id {
                    assert(chain_has(chain@, f.post_id));
                    return Resolution::Content(None);
                }
                i = i + 1;
            }
            Resolution::Fetch(f)
        },
    }
}

} // verus!
