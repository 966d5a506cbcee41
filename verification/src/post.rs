//! A blog post workflow in the state pattern: a post starts as a draft,
//! is sent for review, needs two approvals to be published, and shows its
//! content only once published. Text can be added only to a draft.
use vstd::prelude::*;

verus! {

pub struct Post {
    state: PostState,
    content: String,
}

/// The states a post can be in.
pub enum PostState {
    Draft(Draft),
    PendingReview(PendingReview),
    Published(Published),
}

pub struct Draft {}

/// Waiting for approval; `approved` counts the approvals so far.
pub struct PendingReview {
    pub approved: u8,
}

pub struct Published {}

/// The mathematical model of a post.
pub struct PostView {
    pub state: PostState,
    pub content: Seq<char>,
}

/// The behaviour that depends on the state of a post.
pub trait State: Sized {
    /// The state after a review is requested.
    fn request_review(self) -> PostState;

    /// The state after an approval.
    fn approve(self) -> PostState;

    /// The content after `new_content` is appended to `old_content`; by
    /// default nothing is appended.
    fn append_content(&self, new_content: String, old_content: String) -> (r: String)
        default_ensures
            r@ == old_content@,
    {
        old_content
    }

    /// The content a reader sees; by default nothing.
    fn content<'a>(&self, post: &'a Post) -> (r: &'a str)
        default_ensures
            r@ == Seq::<char>::empty(),
    {
        proof {
            reveal_strlit("");
        }
        ""
    }
}

impl State for Draft {
    fn request_review(self) -> (s: PostState)
        ensures
            s == PostState::PendingReview(PendingReview { approved: 0 }),
    {
        PostState::PendingReview(PendingReview { approved: 0 })
    }

    fn approve(self) -> (s: PostState)
        ensures
            s == PostState::Draft(Draft {}),
    {
        PostState::Draft(self)
    }

    fn append_content(&self, new_content: String, old_content: String) -> (r: String)
        ensures
            r@ == old_content@ + new_content@,
    {
        let mut old_content = old_content;
        old_content.append(new_content.as_str());
        old_content
    }
}

impl State for PendingReview {
    fn request_review(self) -> (s: PostState)
        ensures
            s == PostState::PendingReview(self),
    {
        PostState::PendingReview(self)
    }

    /// The first approval is counted, the second one publishes.
    fn approve(self) -> (s: PostState)
        ensures
            s == if self.approved == 0 {
                PostState::PendingReview(PendingReview { approved: 1 })
            } else {
                PostState::Published(Published {})
            },
    {
        match self.approved {
            0 => PostState::PendingReview(PendingReview { approved: 1 }),
            _ => PostState::Published(Published {}),
        }
    }
}

impl State for Published {
    fn request_review(self) -> (s: PostState)
        ensures
            s == PostState::Published(Published {}),
    {
        PostState::Published(self)
    }

    fn content<'a>(&self, post: &'a Post) -> (r: &'a str)
        ensures
            r@ == post@.content,
    {
        post.content.as_str()
    }

    fn approve(self) -> (s: PostState)
        ensures
            s == PostState::Published(Published {}),
    {
        PostState::Published(self)
    }
}

/// The state after a review is requested: a draft goes to review.
pub open spec fn after_review(s: PostState) -> PostState {
    match s {
        PostState::Draft(_) => PostState::PendingReview(PendingReview { approved: 0 }),
        _ => s,
    }
}

/// The state after an approval: a first approval is counted, a second
/// one publishes; drafts and published posts stay as they are.
pub open spec fn after_approve(s: PostState) -> PostState {
    match s {
        PostState::PendingReview(p) => {
            if p.approved == 0 {
                PostState::PendingReview(PendingReview { approved: 1 })
            } else {
                PostState::Published(Published {})
            }
        },
        _ => s,
    }
}

/// The content after appending `text`: only a draft takes it.
pub open spec fn after_append(s: PostState, content: Seq<char>, text: Seq<char>) -> Seq<char> {
    if s is Draft {
        content + text
    } else {
        content
    }
}

/// What a reader sees: the content of a published post, nothing otherwise.
pub open spec fn visible(s: PostState, content: Seq<char>) -> Seq<char> {
    if s is Published {
        content
    } else {
        Seq::empty()
    }
}

impl View for Post {
    type V = PostView;

    closed spec fn view(&self) -> PostView {
        PostView { state: self.state, content: self.content@ }
    }
}

impl Post {
    /// An empty draft.
    pub fn new() -> (p: Self)
        ensures
            p@.state == PostState::Draft(Draft {}),
            p@.content == Seq::<char>::empty(),
    {
        return Post { state: PostState::Draft(Draft {}), content: String::new() };
    }

    /// Appends `content` to a draft; a post in any other state keeps its
    /// content.
    pub fn append_content(&mut self, content: String)
        ensures
            final(self)@.state == old(self)@.state,
            final(self)@.content == after_append(old(self)@.state, old(self)@.content, content@),
    {
        let mut old_content = String::new();
        std::mem::swap(&mut old_content, &mut self.content);
        let new_content = match &self.state {
            PostState::Draft(s) => s.append_content(content, old_content),
            PostState::PendingReview(s) => s.append_content(content, old_content),
            PostState::Published(s) => s.append_content(content, old_content),
        };

        self.content = new_content;
    }

    /// The content a reader sees: empty until the post is published.
    pub fn content(&self) -> (r: &str)
        ensures
            r@ == visible(self@.state, self@.content),
    {
        match &self.state {
            PostState::Draft(s) => s.content(self),
            PostState::PendingReview(s) => s.content(self),
            PostState::Published(s) => s.content(self),
        }
    }

    /// Sends a draft for review; any other post stays as it is.
    pub fn request_review(&mut self)
        ensures
            final(self)@.state == after_review(old(self)@.state),
            final(self)@.content == old(self)@.content,
    {
        let mut state = PostState::Draft(Draft {});
        std::mem::swap(&mut state, &mut self.state);
        self.state = match state {
            PostState::Draft(s) => s.request_review(),
            PostState::PendingReview(s) => s.request_review(),
            PostState::Published(s) => s.request_review(),
        };
    }

    /// Approves a post under review: the second approval publishes it.
    pub fn approve(&mut self)
        ensures
            final(self)@.state == after_approve(old(self)@.state),
            final(self)@.content == old(self)@.content,
    {
        let mut state = PostState::Draft(Draft {});
        std::mem::swap(&mut state, &mut self.state);
        self.state = match state {
            PostState::Draft(s) => s.approve(),
            PostState::PendingReview(s) => s.approve(),
            PostState::Published(s) => s.approve(),
        };
    }
}

/// A published post stays published, whatever is requested.
pub proof fn lemma_published_is_final(s: PostState)
    requires
        s is Published,
    ensures
        after_review(s) == s,
        after_approve(s) == s,
{
}

/// Publishing takes a review request and two approvals: only an approval
/// publishes, and only one of a post under review that was approved
/// before; a review request never publishes a post that was not.
pub proof fn lemma_publishing_needs_two_approvals(s: PostState)
    ensures
        after_approve(s) is Published ==> s is Published || (s is PendingReview
            && s->PendingReview_0.approved >= 1),
        after_review(s) is Published ==> s is Published,
        (s is Draft) ==> !(after_approve(s) is Published) && after_review(s)
            == PostState::PendingReview(PendingReview { approved: 0 }),
{
}

/// Text reaches a post only while it is a draft, and readers see it only
/// once the post is published.
pub proof fn lemma_content_hidden_until_published(s: PostState, content: Seq<char>, text: Seq<char>)
    ensures
        !(s is Draft) ==> after_append(s, content, text) == content,
        !(s is Published) ==> visible(s, content) == Seq::<char>::empty(),
{
}

/// A review request moves only a draft: a post under review keeps its
/// state, approvals counted so far included, and a published post stays
/// published.
pub proof fn lemma_review_request_moves_only_drafts(s: PostState, n: u8)
    ensures
        after_review(PostState::PendingReview(PendingReview { approved: n }))
            == PostState::PendingReview(PendingReview { approved: n }),
        !(s is Draft) ==> after_review(s) == s,
{
}

/// Once a review is requested, two approvals publish the post, whatever
/// further review requests come before or between them.
pub proof fn lemma_two_approvals_publish(extra_before: bool, extra_between: bool)
    ensures
        ({
            let s0 = after_review(PostState::Draft(Draft {}));
            let s1 = if extra_before {
                after_review(s0)
            } else {
                s0
            };
            let s2 = after_approve(s1);
            let s3 = if extra_between {
                after_review(s2)
            } else {
                s2
            };
            after_approve(s3) is Published && !(s2 is Published)
        }),
{
}

} // verus!
