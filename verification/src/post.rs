use vstd::prelude::*;
use crate::store::{Address, EntryDataView};

verus! {

/// A record indexed under a partition ("base"): the payload fields, the
/// creating agent, and the timestamp in milliseconds since the epoch that
/// decides which time bucket the record is filed under.
pub struct Post {
    pub title: String,
    pub details: String,
    pub post_type: String,
    pub creator: String,
    pub announcement: bool,
    pub timestamp: u128,
    pub base: String,
}

/// The mathematical value of a `Post`: every text field as its sequence
/// of characters.
pub struct PostView {
    pub title: Seq<char>,
    pub details: Seq<char>,
    pub post_type: Seq<char>,
    pub creator: Seq<char>,
    pub announcement: bool,
    pub timestamp: u128,
    pub base: Seq<char>,
}

impl View for Post {
    type V = PostView;

    open spec fn view(&self) -> PostView {
        PostView {
            title: self.title@,
            details: self.details@,
            post_type: self.post_type@,
            creator: self.creator@,
            announcement: self.announcement,
            timestamp: self.timestamp,
            base: self.base@,
        }
    }
}

/// A post together with the deterministic address the store assigned to
/// it on commit.
pub struct PostWithAddress {
    pub address: Address,
    pub title: String,
    pub details: String,
    pub post_type: String,
    pub creator: String,
    pub announcement: bool,
    pub timestamp: u128,
    pub base: String,
}

/// The mathematical value of a `PostWithAddress`.
pub struct PostWithAddressView {
    pub address: EntryDataView,
    pub title: Seq<char>,
    pub details: Seq<char>,
    pub post_type: Seq<char>,
    pub creator: Seq<char>,
    pub announcement: bool,
    pub timestamp: u128,
    pub base: Seq<char>,
}

impl View for PostWithAddress {
    type V = PostWithAddressView;

    open spec fn view(&self) -> PostWithAddressView {
        PostWithAddressView {
            address: self.address@,
            title: self.title@,
            details: self.details@,
            post_type: self.post_type@,
            creator: self.creator@,
            announcement: self.announcement,
            timestamp: self.timestamp,
            base: self.base@,
        }
    }
}

/// The value of a post once the given address is attached to it.
pub open spec fn spec_with_address(p: PostView, address: EntryDataView) -> PostWithAddressView {
    PostWithAddressView {
        address: address,
        title: p.title,
        details: p.details,
        post_type: p.post_type,
        creator: p.creator,
        announcement: p.announcement,
        timestamp: p.timestamp,
        base: p.base,
    }
}

impl Post {
    /// Attaches an address to a copy of the post's fields.
    pub fn with_address(&self, address: Address) -> (r: PostWithAddress)
        ensures
            r@ == spec_with_address(self@, address@),
    {
        PostWithAddress {
            address,
            title: copy_string(&self.title),
            details: copy_string(&self.details),
            post_type: copy_string(&self.post_type),
            creator: copy_string(&self.creator),
            announcement: self.announcement,
            timestamp: self.timestamp,
            base: copy_string(&self.base),
        }
    }
}

/// Copies a string, keeping its characters.
pub fn copy_string(s: &String) -> (r: String)
    ensures
        r@ == s@,
{
    s.clone()
}

/// Copies a post, keeping its value.
pub fn copy_post(p: &Post) -> (r: Post)
    ensures
        r@ == p@,
{
    Post {
        title: copy_string(&p.title),
        details: copy_string(&p.details),
        post_type: copy_string(&p.post_type),
        creator: copy_string(&p.creator),
        announcement: p.announcement,
        timestamp: p.timestamp,
        base: copy_string(&p.base),
    }
}

/// Whether two posts hold the same value.
pub fn post_eq(a: &Post, b: &Post) -> (r: bool)
    ensures
        r == (a@ == b@),
{
    let r = a.title == b.title && a.details == b.details && a.post_type == b.post_type
        && a.creator == b.creator && a.announcement == b.announcement && a.timestamp
        == b.timestamp && a.base == b.base;
    proof {
        if r {
            assert(a@ == b@);
        }
    }
    r
}

} // verus!
