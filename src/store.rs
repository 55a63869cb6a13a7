//! Per-recipient image store with view quotas, and the username registry.
use crate::messages::{ReceivedImageInfo, ReceivedInfoView};
use crate::table::KeyedTable;
use vstd::prelude::*;

verus! {

/// One encrypted image held for one recipient.
#[derive(Clone, Debug)]
pub struct StoredImage {
    pub image_id: String,
    pub from_username: String,
    pub encrypted_data: Vec<u8>,
    pub remaining_views: u32,
    pub max_views: u32,
    pub timestamp: i64,
}

pub struct StoredImageView {
    pub image_id: Seq<char>,
    pub from_username: Seq<char>,
    pub encrypted_data: Seq<u8>,
    pub remaining_views: u32,
    pub max_views: u32,
    pub timestamp: i64,
}

impl View for StoredImage {
    type V = StoredImageView;

    open spec fn view(&self) -> StoredImageView {
        StoredImageView {
            image_id: self.image_id@,
            from_username: self.from_username@,
            encrypted_data: self.encrypted_data@,
            remaining_views: self.remaining_views,
            max_views: self.max_views,
            timestamp: self.timestamp,
        }
    }
}

pub open spec fn images_view(s: Seq<StoredImage>) -> Seq<StoredImageView> {
    s.map_values(|i: StoredImage| i@)
}

/// Why a view of a stored image was refused.
#[derive(Debug, Clone, Copy, PartialEq, Eq, Structural)]
pub enum ViewError {
    /// Nothing was ever stored for the user.
    InboxEmpty,
    /// The user holds no image with that id.
    ImageNotFound,
    /// The image has no views left.
    QuotaExhausted,
}

/// The message a client is shown for each refusal; the three differ.
pub open spec fn view_error_text(e: ViewError) -> Seq<char> {
    match e {
        ViewError::InboxEmpty => "No images for this user"@,
        ViewError::ImageNotFound => "Image not found"@,
        ViewError::QuotaExhausted => "No views remaining"@,
    }
}

/// A client tells the three refusals apart by their messages.
pub proof fn lemma_view_error_texts_differ()
    ensures
        view_error_text(ViewError::InboxEmpty) != view_error_text(ViewError::ImageNotFound),
        view_error_text(ViewError::InboxEmpty) != view_error_text(ViewError::QuotaExhausted),
        view_error_text(ViewError::ImageNotFound) != view_error_text(ViewError::QuotaExhausted),
{
    reveal_strlit("No images for this user");
    reveal_strlit("Image not found");
    reveal_strlit("No views remaining");
    assert(view_error_text(ViewError::InboxEmpty).len() != view_error_text(
        ViewError::ImageNotFound,
    ).len());
    assert(view_error_text(ViewError::InboxEmpty).len() != view_error_text(
        ViewError::QuotaExhausted,
    ).len());
    assert(view_error_text(ViewError::ImageNotFound)[0] != view_error_text(
        ViewError::QuotaExhausted,
    )[0]);
}

impl ViewError {
    /// The message a client is shown.
    pub fn describe(&self) -> (r: &'static str)
        ensures
            r@ == view_error_text(*self),
    {
        match self {
            ViewError::InboxEmpty => "No images for this user",
            ViewError::ImageNotFound => "Image not found",
            ViewError::QuotaExhausted => "No views remaining",
        }
    }
}

/// The inbox after one image is appended for each recipient, in order.
pub open spec fn deliver_all(
    inbox: Map<Seq<char>, Seq<StoredImageView>>,
    recipients: Seq<Seq<char>>,
    image: StoredImageView,
) -> Map<Seq<char>, Seq<StoredImageView>>
    decreases recipients.len(),
{
    if recipients.len() == 0 {
        inbox
    } else {
        let before = deliver_all(inbox, recipients.drop_last(), image);
        let who = recipients.last();
        let held = if before.contains_key(who) {
            before[who]
        } else {
            Seq::empty()
        };
        before.insert(who, held.push(image))
    }
}

/// The images of a list that can still be viewed, in order.
pub open spec fn viewable(s: Seq<StoredImageView>) -> Seq<StoredImageView>
    decreases s.len(),
{
    if s.len() == 0 {
        Seq::empty()
    } else {
        let rest = viewable(s.drop_last());
        if s.last().remaining_views > 0 {
            rest.push(s.last())
        } else {
            rest
        }
    }
}

pub open spec fn info_of(i: StoredImageView) -> ReceivedInfoView {
    ReceivedInfoView {
        image_id: i.image_id,
        from_username: i.from_username,
        remaining_views: i.remaining_views,
        timestamp: i.timestamp,
    }
}

/// Position `i` holds the first image of `s` with id `id`.
pub open spec fn is_first_with_id(s: Seq<StoredImageView>, id: Seq<char>, i: int) -> bool {
    &&& 0 <= i < s.len()
    &&& s[i].image_id == id
    &&& forall|j: int| 0 <= j < i ==> s[j].image_id != id
}

/// Some image of `s` has id `id`; the first of them is at some position.
pub open spec fn holds_id(s: Seq<StoredImageView>, id: Seq<char>) -> bool {
    exists|i: int| is_first_with_id(s, id, i)
}

/// The position of the first image of `s` with id `id`, when there is one.
pub open spec fn first_with_id(s: Seq<StoredImageView>, id: Seq<char>) -> int {
    choose|i: int| is_first_with_id(s, id, i)
}

/// The same image with one view fewer.
pub open spec fn one_view_fewer(i: StoredImageView) -> StoredImageView {
    StoredImageView { remaining_views: (i.remaining_views - 1) as u32, ..i }
}

/// What viewing image `id` of `user` does to an inbox: the new inbox and the
/// outcome, as the image bytes and the views left.
pub open spec fn view_step(
    inbox: Map<Seq<char>, Seq<StoredImageView>>,
    user: Seq<char>,
    id: Seq<char>,
) -> (Map<Seq<char>, Seq<StoredImageView>>, Result<(Seq<u8>, u32), ViewError>) {
    if !inbox.contains_key(user) {
        (inbox, Err(ViewError::InboxEmpty))
    } else if !holds_id(inbox[user], id) {
        (inbox, Err(ViewError::ImageNotFound))
    } else {
        let s = inbox[user];
        let i = first_with_id(s, id);
        if s[i].remaining_views == 0 {
            (inbox, Err(ViewError::QuotaExhausted))
        } else {
            let after = one_view_fewer(s[i]);
            (
                inbox.insert(user, s.update(i, after)),
                Ok((s[i].encrypted_data, after.remaining_views)),
            )
        }
    }
}

pub open spec fn view_outcome(r: Result<(Vec<u8>, u32), ViewError>) -> Result<
    (Seq<u8>, u32),
    ViewError,
> {
    match r {
        Ok((d, n)) => Ok((d@, n)),
        Err(e) => Err(e),
    }
}

/// Every stored image has `remaining_views <= max_views`.
pub open spec fn quotas_bounded(inbox: Map<Seq<char>, Seq<StoredImageView>>) -> bool {
    forall|u: Seq<char>, i: int|
        inbox.contains_key(u) && 0 <= i < inbox[u].len() ==> #[trigger] inbox[u][i].remaining_views
            <= inbox[u][i].max_views
}

proof fn lemma_first_unique(s: Seq<StoredImageView>, id: Seq<char>, i: int)
    requires
        is_first_with_id(s, id, i),
    ensures
        holds_id(s, id),
        first_with_id(s, id) == i,
{
    assert(is_first_with_id(s, id, i));
    let j = first_with_id(s, id);
    if j < i {
        assert(s[j].image_id != id);
    } else if j > i {
        assert(s[i].image_id != id);
    }
}

/// Images stored per recipient username.
pub struct ImageStore {
    inbox: KeyedTable<Vec<StoredImage>>,
}

impl View for ImageStore {
    type V = Map<Seq<char>, Seq<StoredImageView>>;

    closed spec fn view(&self) -> Map<Seq<char>, Seq<StoredImageView>> {
        self.inbox@.map_values(|v: Vec<StoredImage>| images_view(v@))
    }
}

fn copy_bytes(b: &Vec<u8>) -> (r: Vec<u8>)
    ensures
        r@ == b@,
{
    let r = b.clone();
    assert(r@ =~= b@);
    r
}

fn first_index(images: &Vec<StoredImage>, image_id: &String) -> (r: usize)
    ensures
        r <= images.len(),
        forall|j: int| 0 <= j < r ==> images@[j].image_id@ != image_id@,
        r < images.len() ==> images@[r as int].image_id@ == image_id@,
{
    let mut i: usize = 0;
    while i < images.len()
        invariant
            i <= images.len(),
            forall|j: int| 0 <= j < i ==> images@[j].image_id@ != image_id@,
        decreases images.len() - i,
    {
        if images[i].image_id == *image_id {
            return i;
        }
        i += 1;
    }
    i
}

impl ImageStore {
    pub closed spec fn wf(&self) -> bool {
        self.inbox.wf()
    }

    pub fn new() -> (r: Self)
        ensures
            r.wf(),
            r@ == Map::<Seq<char>, Seq<StoredImageView>>::empty(),
    {
        let r = ImageStore { inbox: KeyedTable::new() };
        assert(r@ =~= Map::<Seq<char>, Seq<StoredImageView>>::empty());
        r
    }

    fn append(&mut self, user: &String, image: StoredImage)
        requires
            old(self).wf(),
        ensures
            final(self).wf(),
            final(self)@ == old(self)@.insert(
                user@,
                (if old(self)@.contains_key(user@) {
                    old(self)@[user@]
                } else {
                    Seq::empty()
                }).push(image@),
            ),
    {
        let ghost t0 = self.inbox@;
        let mut held = match self.inbox.remove(user) {
            Some(v) => v,
            None => {
                let v: Vec<StoredImage> = Vec::new();
                assert(images_view(v@) =~= Seq::<StoredImageView>::empty());
                v
            },
        };
        let ghost before = images_view(held@);
        held.push(image);
        assert(images_view(held@) =~= before.push(image@));
        self.inbox.insert(user.clone(), held);
        assert(self@ =~= old(self)@.insert(user@, before.push(image@)));
    }

    /// Appends one entry for each recipient, with all views remaining.
    pub fn send_image(
        &mut self,
        from_username: &String,
        to_usernames: &Vec<String>,
        encrypted_image: &Vec<u8>,
        max_views: u32,
        image_id: &String,
        timestamp: i64,
    )
        requires
            old(self).wf(),
        ensures
            final(self).wf(),
            final(self)@ == deliver_all(
                old(self)@,
                to_usernames@.map_values(|u: String| u@),
                StoredImageView {
                    image_id: image_id@,
                    from_username: from_username@,
                    encrypted_data: encrypted_image@,
                    remaining_views: max_views,
                    max_views,
                    timestamp,
                },
            ),
    {
        let ghost image = StoredImageView {
            image_id: image_id@,
            from_username: from_username@,
            encrypted_data: encrypted_image@,
            remaining_views: max_views,
            max_views,
            timestamp,
        };
        let ghost names = to_usernames@.map_values(|u: String| u@);
        let mut i: usize = 0;
        while i < to_usernames.len()
            invariant
                self.wf(),
                i <= to_usernames.len(),
                names == to_usernames@.map_values(|u: String| u@),
                image == (StoredImageView {
                    image_id: image_id@,
                    from_username: from_username@,
                    encrypted_data: encrypted_image@,
                    remaining_views: max_views,
                    max_views,
                    timestamp,
                }),
                self@ == deliver_all(old(self)@, names.subrange(0, i as int), image),
            decreases to_usernames.len() - i,
        {
            let entry = StoredImage {
                image_id: image_id.clone(),
                from_username: from_username.clone(),
                encrypted_data: copy_bytes(encrypted_image),
                remaining_views: max_views,
                max_views,
                timestamp,
            };
            assert(entry@ == image);
            self.append(&to_usernames[i], entry);
            assert(names.subrange(0, i + 1).drop_last() =~= names.subrange(0, i as int));
            i += 1;
        }
        assert(names.subrange(0, to_usernames.len() as int) =~= names);
    }

    /// The images of `username` that still have views left, in the order stored.
    pub fn query_received(&self, username: &String) -> (r: Vec<ReceivedImageInfo>)
        requires
            self.wf(),
        ensures
            r@.map_values(|i: ReceivedImageInfo| i@) == (if self@.contains_key(username@) {
                viewable(self@[username@])
            } else {
                Seq::empty()
            }).map_values(|i: StoredImageView| info_of(i)),
    {
        let mut out: Vec<ReceivedImageInfo> = Vec::new();
        match self.inbox.get(username) {
            None => {
                assert(out@.map_values(|i: ReceivedImageInfo| i@) =~= Seq::<
                    StoredImageView,
                >::empty().map_values(|i: StoredImageView| info_of(i)));
            },
            Some(images) => {
                let ghost s = images_view(images@);
                let mut k: usize = 0;
                while k < images.len()
                    invariant
                        k <= images.len(),
                        s == images_view(images@),
                        out@.map_values(|i: ReceivedImageInfo| i@) == viewable(
                            s.subrange(0, k as int),
                        ).map_values(|i: StoredImageView| info_of(i)),
                    decreases images.len() - k,
                {
                    let img = &images[k];
                    let ghost before = out@;
                    assert(s.subrange(0, k + 1).drop_last() =~= s.subrange(0, k as int));
                    if img.remaining_views > 0 {
                        out.push(
                            ReceivedImageInfo {
                                image_id: img.image_id.clone(),
                                from_username: img.from_username.clone(),
                                remaining_views: img.remaining_views,
                                timestamp: img.timestamp,
                            },
                        );
                        assert(out@.map_values(|i: ReceivedImageInfo| i@) =~= before.map_values(
                            |i: ReceivedImageInfo| i@,
                        ).push(info_of(s[k as int])));
                    }
                    k += 1;
                }
                assert(s.subrange(0, images.len() as int) =~= s);
            },
        }
        out
    }

    /// Views image `image_id` of `username`: when it has views left, one is
    /// used and its bytes are returned with the views that remain.
    pub fn view_image(&mut self, username: &String, image_id: &String) -> (r: Result<
        (Vec<u8>, u32),
        ViewError,
    >)
        requires
            old(self).wf(),
        ensures
            final(self).wf(),
            (final(self)@, view_outcome(r)) == view_step(old(self)@, username@, image_id@),
    {
        let ghost m0 = self@;
        let mut images = match self.inbox.remove(username) {
            None => {
                return Err(ViewError::InboxEmpty);
            },
            Some(v) => v,
        };
        let ghost s = images_view(images@);
        let i = first_index(&images, image_id);
        if i == images.len() {
            assert(!holds_id(s, image_id@)) by {
                if holds_id(s, image_id@) {
                    let j = choose|j: int| is_first_with_id(s, image_id@, j);
                    assert(s[j].image_id != image_id@);
                }
            }
            self.inbox.insert(username.clone(), images);
            assert(self@ =~= m0);
            return Err(ViewError::ImageNotFound);
        }
        proof {
            lemma_first_unique(s, image_id@, i as int);
        }
        if images[i].remaining_views == 0 {
            self.inbox.insert(username.clone(), images);
            assert(self@ =~= m0);
            return Err(ViewError::QuotaExhausted);
        }
        let mut img = images.remove(i);
        img.remaining_views = img.remaining_views - 1;
        let data = copy_bytes(&img.encrypted_data);
        let left = img.remaining_views;
        images.insert(i, img);
        assert(images_view(images@) =~= s.update(i as int, one_view_fewer(s[i as int])));
        self.inbox.insert(username.clone(), images);
        assert(self@ =~= m0.insert(username@, s.update(i as int, one_view_fewer(s[i as int]))));
        Ok((data, left))
    }
}

/// Viewing never raises a count of remaining views above the image's
/// maximum: a store whose images all hold `remaining_views <= max_views`
/// keeps that bound after any view.
pub proof fn lemma_view_keeps_quota_bound(
    inbox: Map<Seq<char>, Seq<StoredImageView>>,
    user: Seq<char>,
    id: Seq<char>,
)
    requires
        quotas_bounded(inbox),
    ensures
        quotas_bounded(view_step(inbox, user, id).0),
{
    let after = view_step(inbox, user, id).0;
    if inbox.contains_key(user) && holds_id(inbox[user], id) {
        let s = inbox[user];
        let j = first_with_id(s, id);
        assert(is_first_with_id(s, id, j));
        assert(inbox[user][j].remaining_views <= inbox[user][j].max_views);
        assert forall|u: Seq<char>, i: int|
            after.contains_key(u) && 0 <= i < after[u].len() implies #[trigger] after[u][i].remaining_views
            <= after[u][i].max_views by {
            assert(inbox[u][i].remaining_views <= inbox[u][i].max_views);
        }
    }
}

/// A successful view uses exactly one view: the count left afterwards is the
/// count before less one, the image's entry is otherwise unchanged, and no
/// other entry moves.
pub proof fn lemma_view_uses_one(
    inbox: Map<Seq<char>, Seq<StoredImageView>>,
    user: Seq<char>,
    id: Seq<char>,
)
    requires
        view_step(inbox, user, id).1 is Ok,
    ensures
        ({
            let s = inbox[user];
            let i = first_with_id(s, id);
            let after = view_step(inbox, user, id).0;
            &&& inbox.contains_key(user)
            &&& 0 <= i < s.len()
            &&& s[i].remaining_views >= 1
            &&& after[user][i].remaining_views == s[i].remaining_views - 1
            &&& view_step(inbox, user, id).1 == Ok::<(Seq<u8>, u32), ViewError>(
                (s[i].encrypted_data, (s[i].remaining_views - 1) as u32),
            )
            &&& after[user].len() == s.len()
            &&& forall|j: int| 0 <= j < s.len() && j != i ==> after[user][j] == s[j]
            &&& forall|u: Seq<char>| u != user ==> after.contains_key(u) == inbox.contains_key(u)
                && (inbox.contains_key(u) ==> after[u] == inbox[u])
        }),
{
    let s = inbox[user];
    let i = first_with_id(s, id);
    assert(is_first_with_id(s, id, i));
}

/// Usernames registered on this peer, each with the client that holds it.
pub struct SessionRegistry {
    sessions: KeyedTable<String>,
}

impl View for SessionRegistry {
    type V = Map<Seq<char>, Seq<char>>;

    closed spec fn view(&self) -> Map<Seq<char>, Seq<char>> {
        self.sessions@.map_values(|c: String| c@)
    }
}

/// Registering `user` for `client` on a registry holding `m`: it succeeds
/// exactly when the username is free.
pub open spec fn register_step(m: Map<Seq<char>, Seq<char>>, user: Seq<char>, client: Seq<char>) -> (
    Map<Seq<char>, Seq<char>>,
    bool,
) {
    if m.contains_key(user) {
        (m, false)
    } else {
        (m.insert(user, client), true)
    }
}

/// Of two registrations of one free username on one peer, in either order
/// and by any clients, exactly one succeeds: the first.
pub proof fn lemma_register_twice(
    m: Map<Seq<char>, Seq<char>>,
    user: Seq<char>,
    client1: Seq<char>,
    client2: Seq<char>,
)
    requires
        !m.contains_key(user),
    ensures
        register_step(m, user, client1).1,
        !register_step(register_step(m, user, client1).0, user, client2).1,
        register_step(register_step(m, user, client1).0, user, client2).0[user] == client1,
{
}

impl SessionRegistry {
    pub closed spec fn wf(&self) -> bool {
        self.sessions.wf()
    }

    pub fn new() -> (r: Self)
        ensures
            r.wf(),
            r@ == Map::<Seq<char>, Seq<char>>::empty(),
    {
        let r = SessionRegistry { sessions: KeyedTable::new() };
        assert(r@ =~= Map::<Seq<char>, Seq<char>>::empty());
        r
    }

    /// Registers `username` for `client_id` when no session holds it.
    pub fn register(&mut self, client_id: String, username: String) -> (r: bool)
        requires
            old(self).wf(),
        ensures
            final(self).wf(),
            (final(self)@, r) == register_step(old(self)@, username@, client_id@),
    {
        if self.sessions.contains_key(&username) {
            false
        } else {
            let ghost c = client_id@;
            let ghost u = username@;
            self.sessions.insert(username, client_id);
            assert(self@ =~= old(self)@.insert(u, c));
            true
        }
    }

    /// Ends the session of `username`, if there is one.
    pub fn unregister(&mut self, username: &String)
        requires
            old(self).wf(),
        ensures
            final(self).wf(),
            final(self)@ == old(self)@.remove(username@),
    {
        let _ = self.sessions.remove(username);
        assert(self@ =~= old(self)@.remove(username@));
    }

    pub fn is_available(&self, username: &String) -> (r: bool)
        requires
            self.wf(),
        ensures
            r == !self@.contains_key(username@),
    {
        !self.sessions.contains_key(username)
    }
}

} // verus!
