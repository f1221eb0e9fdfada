//! The session state machine: the active view, the list-selection cursors,
//! the transient edit forms and their validation, and every mutation of the
//! in-memory collection that the surrounding application can trigger.

use crate::clamp_ts;
use crate::ext::{lower_of, now_millis, unicode_alnum, upper_of};
use crate::ip::{ip_of_any, parse_ip_any, valid_ip_any};
use crate::model::{
    box_wf, boxes_wf, category_order, env_has, env_index, env_upsert, env_wf, note_wf, Action,
    BoxV, CtfBox, EnvVar, EnvVarV, Note, NoteCategory,
};
use crate::text::{
    lemma_tag_seq_wf, lemma_trim_idempotent, parse_tags, tags_spec, trim_spec, trim_str,
};
use crate::ts_in_range;
use vstd::prelude::*;
use vstd::string::StrSliceExecFns;
use vstd::string::StringExecFns;

verus! {

/// How long a status message stays visible, in milliseconds.
pub const STATUS_TTL_MS: i64 = 4000;

/// The active view, carrying the id of the box it concerns where it
/// concerns one.
#[derive(PartialEq, Eq, Structural, Clone, Copy, Debug)]
pub enum AppView {
    List,
    Details(i32),
    AddBox,
    DeleteBox(i32),
    EditEnvVars(i32),
    EditNotes(i32),
    WriteupExport(i32),
}

/// Kind of a status-bar message.
#[derive(PartialEq, Eq, Structural, Clone, Copy, Debug)]
pub enum StatusKind {
    Info,
    Success,
    Error,
}

/// A status-bar message with the moment it was set.
pub struct StatusMessage {
    pub text: String,
    pub kind: StatusKind,
    pub at_ms: i64,
}

/// Scratch fields of the add-box form.
#[derive(Debug, Clone)]
pub struct AddBoxForm {
    pub title: String,
    pub platform: String,
    pub ip: String,
    pub tags: String,
    pub current_field: usize,
}

/// Scratch fields of the environment-variable form.
#[derive(Debug, Clone)]
pub struct EnvVarForm {
    pub key: String,
    pub value: String,
    pub current_field: usize,
}

/// Scratch fields of the note form.
#[derive(Debug, Clone)]
pub struct NoteForm {
    pub content: String,
    pub category_index: usize,
}

/// The session state.
pub struct App {
    pub view: AppView,
    pub boxes: Vec<CtfBox>,
    pub selected_box: Option<usize>,
    pub should_quit: bool,
    pub selected_env_var: Option<usize>,
    pub selected_note: Option<usize>,
    pub status_message: Option<StatusMessage>,
    pub writeup_path: String,
}

/// The largest id in use, `0` on an empty collection.
pub open spec fn max_id(bs: Seq<BoxV>) -> int
    decreases bs.len(),
{
    if bs.len() == 0 {
        0
    } else {
        let m = max_id(bs.drop_last());
        if bs.last().id > m {
            bs.last().id as int
        } else {
            m
        }
    }
}

pub proof fn lemma_max_id_ge(bs: Seq<BoxV>)
    ensures
        max_id(bs) >= 0,
        forall|i: int| 0 <= i < bs.len() ==> (#[trigger] bs[i]).id <= max_id(bs),
    decreases bs.len(),
{
    if bs.len() > 0 {
        lemma_max_id_ge(bs.drop_last());
        assert(forall|i: int| 0 <= i < bs.len() - 1 ==> bs[i] == bs.drop_last()[i]);
    }
}

/// Ids are never reused while their box is present: the id the next add
/// will assign is strictly above every id in the collection, so it is
/// strictly above every id assigned earlier whose box still exists.
pub proof fn lemma_assigned_ids_fresh(bs: Seq<BoxV>)
    ensures
        forall|i: int| 0 <= i < bs.len() ==> (#[trigger] bs[i]).id < max_id(bs) + 1,
{
    lemma_max_id_ge(bs);
}

/// Is some box of the collection carrying this id?
pub open spec fn has_id(bs: Seq<BoxV>, id: i32) -> bool {
    exists|i: int| 0 <= i < bs.len() && (#[trigger] bs[i]).id == id
}

/// The position of the box carrying `id` (unique when ids are distinct).
pub open spec fn idx_of_id(bs: Seq<BoxV>, id: i32) -> int {
    choose|i: int| 0 <= i < bs.len() && (#[trigger] bs[i]).id == id
}

/// One step of circular forward movement over `n` items.
pub open spec fn cyc_next_idx(i: int, n: int) -> int {
    if i + 1 >= n {
        0
    } else {
        i + 1
    }
}

/// One step of circular backward movement over `n` items.
pub open spec fn cyc_prev_idx(i: int, n: int) -> int {
    if i == 0 {
        n - 1
    } else {
        i - 1
    }
}

/// `k` steps of circular forward movement.
pub open spec fn iter_next(i: int, n: int, k: nat) -> int
    decreases k,
{
    if k == 0 {
        i
    } else {
        cyc_next_idx(iter_next(i, n, (k - 1) as nat), n)
    }
}

/// `k` steps of circular backward movement.
pub open spec fn iter_prev(i: int, n: int, k: nat) -> int
    decreases k,
{
    if k == 0 {
        i
    } else {
        cyc_prev_idx(iter_prev(i, n, (k - 1) as nat), n)
    }
}

proof fn lemma_iter_next_shape(i: int, n: int, k: nat)
    requires
        0 <= i < n,
        k <= n,
    ensures
        iter_next(i, n, k) == if i + k < n {
            i + k
        } else {
            i + k - n
        },
    decreases k,
{
    if k > 0 {
        lemma_iter_next_shape(i, n, (k - 1) as nat);
    }
}

proof fn lemma_iter_prev_shape(i: int, n: int, k: nat)
    requires
        0 <= i < n,
        k <= n,
    ensures
        iter_prev(i, n, k) == if i - k >= 0 {
            i - k
        } else {
            i - k + n
        },
    decreases k,
{
    if k > 0 {
        lemma_iter_prev_shape(i, n, (k - 1) as nat);
    }
}

/// Circular navigation over `n` items returns to its start after exactly
/// `n` steps, forward or backward.
pub proof fn lemma_cyclic_navigation_roundtrip(i: int, n: int)
    requires
        0 <= i < n,
    ensures
        iter_next(i, n, n as nat) == i,
        iter_prev(i, n, n as nat) == i,
{
    lemma_iter_next_shape(i, n, n as nat);
    lemma_iter_prev_shape(i, n, n as nat);
}

impl App {
    /// The collection as a sequence of box views.
    pub open spec fn bs(self) -> Seq<BoxV> {
        self.boxes@.map_values(|b: CtfBox| b@)
    }

    /// Session invariant: the collection is well-formed and the box-list
    /// selection is `None` exactly on an empty collection, otherwise a
    /// valid index.
    pub open spec fn wf(self) -> bool {
        &&& boxes_wf(self.bs())
        &&& match self.selected_box {
            Some(i) => i < self.bs().len(),
            None => self.bs().len() == 0,
        }
        &&& match self.status_message {
            Some(m) => ts_in_range(m.at_ms),
            None => true,
        }
    }

    /// A fresh session over a loaded collection, on the list view with the
    /// first box (if any) selected.
    pub fn new(boxes: Vec<CtfBox>) -> (r: App)
        requires
            boxes_wf(boxes@.map_values(|b: CtfBox| b@)),
        ensures
            r.wf(),
            r.view == AppView::List,
            r.bs() == boxes@.map_values(|b: CtfBox| b@),
            r.selected_box == (if boxes@.len() > 0 {
                Some(0usize)
            } else {
                None::<usize>
            }),
            r.should_quit == false,
            (r.selected_env_var is None),
            (r.selected_note is None),
            (r.status_message is None),
            r.writeup_path@ == Seq::<char>::empty(),
    {
        let selected_box = if boxes.len() > 0 {
            Some(0usize)
        } else {
            None
        };
        App {
            view: AppView::List,
            boxes,
            selected_box,
            should_quit: false,
            selected_env_var: None,
            selected_note: None,
            status_message: None,
            writeup_path: String::new(),
        }
    }

    /// Request leaving the main loop.
    pub fn quit(&mut self)
        ensures
            *final(self) == (App { should_quit: true, ..*old(self) }),
    {
        self.should_quit = true;
    }

    /// Return to the list view.
    pub fn go_back(&mut self)
        ensures
            *final(self) == (App { view: AppView::List, ..*old(self) }),
    {
        self.view = AppView::List;
    }

    /// Set a status message stamped with the given moment.
    pub fn set_status_at(&mut self, msg: String, kind: StatusKind, now: i64)
        requires
            ts_in_range(now),
        ensures
            *final(self) == (App {
                status_message: Some(StatusMessage { text: msg, kind, at_ms: now }),
                ..*old(self)
            }),
    {
        self.status_message = Some(StatusMessage { text: msg, kind, at_ms: now });
    }

    /// Set a status message stamped with the current wall-clock time.
    pub fn set_status(&mut self, msg: String, kind: StatusKind)
        ensures
            (exists|now: i64|
                ts_in_range(now) && *final(self) == (App {
                    status_message: Some(StatusMessage { text: msg, kind, at_ms: now }),
                    ..*old(self)
                })),
    {
        let now = clamp_ts(now_millis());
        self.set_status_at(msg, kind, now);
    }

    /// Clear the status message once its lifetime has passed the given
    /// moment.
    pub fn tick_status_at(&mut self, now: i64)
        requires
            old(self).wf(),
            ts_in_range(now),
        ensures
            *final(self) == (App {
                status_message: match old(self).status_message {
                    Some(m) => if now - m.at_ms >= STATUS_TTL_MS {
                        None
                    } else {
                        old(self).status_message
                    },
                    None => None::<StatusMessage>,
                },
                ..*old(self)
            }),
            old(self).wf() ==> final(self).wf(),
    {
        let expired = match &self.status_message {
            Some(m) => {
                if m.at_ms <= now {
                    now - m.at_ms >= STATUS_TTL_MS
                } else {
                    false
                }
            },
            None => false,
        };
        if expired {
            self.status_message = None;
        }
    }

    /// Clear the status message once four seconds of wall-clock time
    /// have passed since it was set.
    pub fn tick_status(&mut self)
        requires
            old(self).wf(),
        ensures
            final(self).wf(),
            (exists|now: i64|
                ts_in_range(now) && *final(self) == (App {
                    status_message: match old(self).status_message {
                        Some(m) => if now - m.at_ms >= STATUS_TTL_MS {
                            None
                        } else {
                            old(self).status_message
                        },
                        None => None::<StatusMessage>,
                    },
                    ..*old(self)
                })),
    {
        let now = clamp_ts(now_millis());
        self.tick_status_at(now);
    }

    /// Move the box-list selection forward circularly; no-op on an empty
    /// collection.
    pub fn next(&mut self)
        requires
            old(self).wf(),
        ensures
            final(self).wf(),
            old(self).bs().len() == 0 ==> *final(self) == *old(self),
            old(self).bs().len() > 0 ==> *final(self) == (App {
                selected_box: Some(
                    cyc_next_idx(
                        old(self).selected_box->0 as int,
                        old(self).bs().len() as int,
                    ) as usize,
                ),
                ..*old(self)
            }),
    {
        if self.boxes.len() == 0 {
            return;
        }
        let n = self.boxes.len();
        let cur = match self.selected_box {
            Some(i) => i,
            None => 0,
        };
        let nxt = if cur + 1 >= n {
            0
        } else {
            cur + 1
        };
        self.selected_box = Some(nxt);
    }

    /// Move the box-list selection backward circularly; no-op on an empty
    /// collection.
    pub fn previous(&mut self)
        requires
            old(self).wf(),
        ensures
            final(self).wf(),
            old(self).bs().len() == 0 ==> *final(self) == *old(self),
            old(self).bs().len() > 0 ==> *final(self) == (App {
                selected_box: Some(
                    cyc_prev_idx(
                        old(self).selected_box->0 as int,
                        old(self).bs().len() as int,
                    ) as usize,
                ),
                ..*old(self)
            }),
    {
        if self.boxes.len() == 0 {
            return;
        }
        let n = self.boxes.len();
        let cur = match self.selected_box {
            Some(i) => i,
            None => 0,
        };
        let prv = if cur == 0 {
            n - 1
        } else {
            cur - 1
        };
        self.selected_box = Some(prv);
    }

    /// Open the details view of the selected box; no-op without a
    /// selection.
    pub fn select_current(&mut self)
        requires
            old(self).wf(),
        ensures
            final(self).wf(),
            (match old(self).selected_box {
                Some(i) => *final(self) == (App {
                    view: AppView::Details(old(self).bs()[i as int].id),
                    ..*old(self)
                }),
                None => *final(self) == *old(self),
            }),
    {
        if let Some(idx) = self.selected_box {
            let id = self.boxes[idx].id;
            self.view = AppView::Details(id);
        }
    }

    /// Advance the add-box form cursor circularly over its four fields.
    pub fn next_field(&mut self, form: &mut AddBoxForm)
        ensures
            *final(self) == *old(self),
            *final(form) == (AddBoxForm {
                current_field: cyc_next_idx(old(form).current_field as int, 4) as usize,
                ..*old(form)
            }),
    {
        form.current_field = if form.current_field >= 3 {
            0
        } else {
            form.current_field + 1
        };
    }

    /// Retreat the add-box form cursor circularly over its four fields.
    pub fn previous_field(&mut self, form: &mut AddBoxForm)
        ensures
            *final(self) == *old(self),
            *final(form) == (AddBoxForm {
                current_field: if old(form).current_field == 0 {
                    3usize
                } else {
                    (old(form).current_field - 1) as usize
                },
                ..*old(form)
            }),
    {
        if form.current_field == 0 {
            form.current_field = 3;
        } else {
            form.current_field = form.current_field - 1;
        }
    }

    /// Enter the add-box view with a fresh form: empty fields, the
    /// platform defaulted, cursor on the first field.
    pub fn start_add_box(&mut self) -> (form: AddBoxForm)
        ensures
            *final(self) == (App { view: AppView::AddBox, ..*old(self) }),
            form.title@ == Seq::<char>::empty(),
            form.platform@ == "HTB"@,
            form.ip@ == Seq::<char>::empty(),
            form.tags@ == Seq::<char>::empty(),
            form.current_field == 0,
    {
        self.view = AppView::AddBox;
        AddBoxForm {
            title: String::new(),
            platform: String::from_str("HTB"),
            ip: String::new(),
            tags: String::new(),
            current_field: 0,
        }
    }

    /// Discard a transient form, returning to the list view.
    pub fn cancel_form(&mut self)
        ensures
            *final(self) == (App { view: AppView::List, ..*old(self) }),
    {
        self.view = AppView::List;
    }

    /// The fixed order in which note categories are offered.
    pub fn note_categories() -> (r: Vec<NoteCategory>)
        ensures
            r@ == category_order(),
    {
        let mut v: Vec<NoteCategory> = Vec::new();
        v.push(NoteCategory::Recon);
        v.push(NoteCategory::Foothold);
        v.push(NoteCategory::Privesc);
        v.push(NoteCategory::Web);
        v.push(NoteCategory::Pwn);
        v.push(NoteCategory::Crypto);
        v.push(NoteCategory::Reversing);
        v.push(NoteCategory::Stego);
        v.push(NoteCategory::Misc);
        proof {
            assert(v@ =~= category_order());
        }
        v
    }

    /// The largest id currently in use, `0` on an empty collection.
    pub fn max_box_id(&self) -> (r: i32)
        ensures
            r as int == max_id(self.bs()),
            r >= 0,
    {
        let mut m: i32 = 0;
        let mut i: usize = 0;
        proof {
            assert(self.bs().subrange(0, 0) =~= Seq::<BoxV>::empty());
        }
        while i < self.boxes.len()
            invariant
                0 <= i <= self.boxes.len(),
                self.bs().len() == self.boxes.len(),
                m as int == max_id(self.bs().subrange(0, i as int)),
                m >= 0,
            decreases self.boxes.len() - i,
        {
            proof {
                let pre = self.bs().subrange(0, i + 1);
                assert(pre.drop_last() =~= self.bs().subrange(0, i as int));
                assert(pre.last() == self.bs()[i as int]);
            }
            if self.boxes[i].id > m {
                m = self.boxes[i].id;
            }
            i = i + 1;
        }
        proof {
            assert(self.bs().subrange(0, self.bs().len() as int) =~= self.bs());
        }
        m
    }

    /// The position of the box carrying `id`, if any.
    pub fn find_box_index(&self, box_id: i32) -> (r: Option<usize>)
        ensures
            (match r {
                Some(i) => i < self.bs().len() && self.bs()[i as int].id == box_id,
                None => !has_id(self.bs(), box_id),
            }),
    {
        let mut i: usize = 0;
        while i < self.boxes.len()
            invariant
                0 <= i <= self.boxes.len(),
                self.bs().len() == self.boxes.len(),
                forall|k: int| 0 <= k < i ==> (#[trigger] self.bs()[k]).id != box_id,
            decreases self.boxes.len() - i,
        {
            if self.boxes[i].id == box_id {
                return Some(i);
            }
            i = i + 1;
        }
        None
    }
}

/// The id a successful add-box submission assigns is strictly above
/// every id in the collection at that moment: an id is never reused
/// while any box that saw it assigned is still present.
pub proof fn lemma_new_box_id_fresh(bs: Seq<BoxV>, form: AddBoxForm, now: i64)
    requires
        max_id(bs) < i32::MAX as int,
    ensures
        forall|i: int| 0 <= i < bs.len() ==> (#[trigger] bs[i]).id < new_box_v(bs, form, now).id,
{
    lemma_max_id_ge(bs);
}

/// The box a successful add-box submission appends.
pub open spec fn new_box_v(pre: Seq<BoxV>, form: AddBoxForm, now: i64) -> BoxV {
    BoxV {
        id: (max_id(pre) + 1) as i32,
        title: trim_spec(form.title@),
        platform: form.platform@,
        ip_address: ip_of_any(form.ip@),
        tags: tags_spec(form.tags@),
        created_date: now,
        updated_date: now,
        actions: Seq::empty(),
        notes: Seq::empty(),
        env_vars: Seq::empty(),
    }
}

/// What submitting the add-box form guarantees: success exactly on valid
/// input, the precise error otherwise, and on success the new box
/// appended with the next id and the view back on the list.
pub open spec fn submit_post(
    pre: App,
    post: App,
    form: AddBoxForm,
    now: i64,
    r: Result<(), String>,
) -> bool {
    let t = trim_spec(form.title@);
    &&& (r is Ok <==> t.len() > 0 && valid_ip_any(form.ip@))
    &&& match r {
        Result::Err(e) => post == pre && (if t.len() == 0 {
            e@ == "Title cannot be empty"@
        } else {
            e@ == "Invalid IP address"@
        }),
        Result::Ok(_) => {
            &&& post.bs() == pre.bs().push(new_box_v(pre.bs(), form, now))
            &&& post.view == AppView::List
            &&& post.selected_box == (if pre.bs().len() == 0 {
                Some(0usize)
            } else {
                pre.selected_box
            })
            &&& post.should_quit == pre.should_quit
            &&& post.selected_env_var == pre.selected_env_var
            &&& post.selected_note == pre.selected_note
            &&& post.status_message == pre.status_message
            &&& post.writeup_path == pre.writeup_path
        },
    }
}

impl App {
    /// Submit the add-box form, stamping the new box with `now`.
    pub fn submit_add_box_at(&mut self, form: &AddBoxForm, now: i64) -> (r: Result<(), String>)
        requires
            old(self).wf(),
            ts_in_range(now),
            trim_spec(form.title@).len() > 0 && valid_ip_any(form.ip@) ==> max_id(old(self).bs())
                < i32::MAX as int,
        ensures
            final(self).wf(),
            submit_post(*old(self), *final(self), *form, now, r),
    {
        let t = trim_str(form.title.as_str());
        if t.as_str().unicode_len() == 0 {
            return Err(String::from_str("Title cannot be empty"));
        }
        let ip = match parse_ip_any(form.ip.as_str()) {
            Some(ip) => ip,
            None => {
                return Err(String::from_str("Invalid IP address"));
            },
        };
        let new_id = self.max_box_id() + 1;
        let tags = parse_tags(form.tags.as_str());
        let new_box = CtfBox {
            id: new_id,
            title: t,
            platform: form.platform.clone(),
            ip_address: ip,
            tags,
            created_date: now,
            updated_date: now,
            actions: Vec::new(),
            notes: Vec::new(),
            env_vars: Vec::new(),
        };
        proof {
            lemma_max_id_ge(old(self).bs());
            lemma_trim_idempotent(form.title@);
            lemma_tag_seq_wf(crate::text::split_sep(form.tags@, ','));
            assert(new_box@.tags =~= tags_spec(form.tags@));
            assert(new_box@.actions =~= Seq::<crate::model::ActionV>::empty());
            assert(new_box@.notes =~= Seq::<crate::model::NoteV>::empty());
            assert(new_box@.env_vars =~= Seq::<crate::model::EnvVarV>::empty());
            assert(new_box@ == new_box_v(old(self).bs(), *form, now));
        }
        self.boxes.push(new_box);
        if self.boxes.len() == 1 {
            self.selected_box = Some(0);
        }
        self.view = AppView::List;
        proof {
            assert(self.bs() =~= old(self).bs().push(new_box@));
            assert forall|i: int| 0 <= i < self.bs().len() implies box_wf(
                #[trigger] self.bs()[i],
            ) by {
                if i < old(self).bs().len() {
                    assert(self.bs()[i] == old(self).bs()[i]);
                }
            }
            assert forall|i: int, j: int| 0 <= i < j < self.bs().len() implies self.bs()[i].id
                != self.bs()[j].id by {
                lemma_max_id_ge(old(self).bs());
            }
        }
        Ok(())
    }

    /// Submit the add-box form, stamping the new box with the current
    /// wall-clock time. On any validation failure the form is untouched
    /// and the collection unchanged.
    pub fn submit_add_box(&mut self, form: &AddBoxForm) -> (r: Result<(), String>)
        requires
            old(self).wf(),
            trim_spec(form.title@).len() > 0 && valid_ip_any(form.ip@) ==> max_id(old(self).bs())
                < i32::MAX as int,
        ensures
            final(self).wf(),
            (exists|now: i64|
                ts_in_range(now) && submit_post(*old(self), *final(self), *form, now, r)),
    {
        let now = clamp_ts(now_millis());
        let r = self.submit_add_box_at(form, now);
        proof {
            assert(submit_post(*old(self), *final(self), *form, now, r));
        }
        r
    }
}


/// Remove the box carrying `id`, if present, keeping the others in order.
pub open spec fn remove_id(bs: Seq<BoxV>, id: i32) -> Seq<BoxV> {
    if has_id(bs, id) {
        bs.remove(idx_of_id(bs, id))
    } else {
        bs
    }
}

proof fn lemma_idx_of_id_is(bs: Seq<BoxV>, id: i32, j: int)
    requires
        boxes_wf(bs),
        0 <= j < bs.len(),
        bs[j].id == id,
    ensures
        has_id(bs, id),
        idx_of_id(bs, id) == j,
{
    assert(has_id(bs, id));
    let k = idx_of_id(bs, id);
    if k != j {
        if k < j {
            assert(bs[k].id != bs[j].id);
        } else {
            assert(bs[j].id != bs[k].id);
        }
    }
}

/// What confirming a deletion guarantees: the box is gone, the view is
/// back on the list, and the selection is empty exactly when the
/// collection is, moved to the first box when it pointed at the removed
/// one, and still on the same box otherwise.
pub open spec fn delete_post(pre: App, post: App, id: i32) -> bool {
    &&& post.bs() == remove_id(pre.bs(), id)
    &&& post.view == AppView::List
    &&& post.selected_box == (if post.bs().len() == 0 {
        None::<usize>
    } else {
        match pre.selected_box {
            Some(i) => if has_id(pre.bs(), id) {
                let j = idx_of_id(pre.bs(), id);
                if i == j {
                    Some(0usize)
                } else if i > j {
                    Some((i - 1) as usize)
                } else {
                    Some(i)
                }
            } else {
                Some(i)
            },
            None => None::<usize>,
        }
    })
    &&& post.should_quit == pre.should_quit
    &&& post.selected_env_var == pre.selected_env_var
    &&& post.selected_note == pre.selected_note
    &&& post.status_message == pre.status_message
    &&& post.writeup_path == pre.writeup_path
}

impl App {
    /// Ask to delete the selected box: only when a selection resolves to
    /// a box does the confirmation view open.
    pub fn start_delete_box(&mut self)
        requires
            old(self).wf(),
        ensures
            final(self).wf(),
            (match old(self).selected_box {
                Some(i) => *final(self) == (App {
                    view: AppView::DeleteBox(old(self).bs()[i as int].id),
                    ..*old(self)
                }),
                None => *final(self) == *old(self),
            }),
    {
        if let Some(i) = self.selected_box {
            let id = self.boxes[i].id;
            self.view = AppView::DeleteBox(id);
        }
    }

    /// Remove the box carrying `id` and return to the list view; the
    /// selection stays valid: `None` exactly on an empty collection.
    pub fn confirm_delete_box(&mut self, id: i32)
        requires
            old(self).wf(),
        ensures
            final(self).wf(),
            delete_post(*old(self), *final(self), id),
    {
        let found = self.find_box_index(id);
        match found {
            None => {
                self.view = AppView::List;
            },
            Some(j) => {
                proof {
                    lemma_idx_of_id_is(old(self).bs(), id, j as int);
                }
                self.boxes.remove(j);
                proof {
                    assert(self.bs() =~= old(self).bs().remove(j as int));
                    assert forall|a: int| 0 <= a < self.bs().len() implies box_wf(
                        #[trigger] self.bs()[a],
                    ) by {
                        if a < j {
                            assert(self.bs()[a] == old(self).bs()[a]);
                        } else {
                            assert(self.bs()[a] == old(self).bs()[a + 1]);
                        }
                    }
                    assert forall|a: int, b: int| 0 <= a < b < self.bs().len() implies self.bs()[a].id
                        != self.bs()[b].id by {
                        let a0 = if a < j { a } else { a + 1 };
                        let b0 = if b < j { b } else { b + 1 };
                        assert(self.bs()[a] == old(self).bs()[a0]);
                        assert(self.bs()[b] == old(self).bs()[b0]);
                    }
                }
                if self.boxes.len() == 0 {
                    self.selected_box = None;
                } else {
                    match self.selected_box {
                        Some(s) => {
                            if s == j {
                                self.selected_box = Some(0);
                            } else if s > j {
                                self.selected_box = Some(s - 1);
                            }
                        },
                        None => {},
                    }
                }
                self.view = AppView::List;
            },
        }
    }

    /// Close the confirmation view without deleting.
    pub fn cancel_delete(&mut self)
        ensures
            *final(self) == (App { view: AppView::List, ..*old(self) }),
    {
        self.view = AppView::List;
    }
}

/// Do all characters of the key pass the validation rule: alphanumeric
/// or underscore?
pub open spec fn env_key_valid(key: Seq<char>) -> bool {
    forall|i: int| 0 <= i < key.len() ==> (unicode_alnum(#[trigger] key[i]) || key[i] == '_')
}

fn check_env_key(key: &str) -> (r: bool)
    ensures
        r == env_key_valid(key@),
{
    let n = key.unicode_len();
    let mut i: usize = 0;
    while i < n
        invariant
            0 <= i <= n,
            n == key@.len(),
            forall|k: int| 0 <= k < i ==> (unicode_alnum(#[trigger] key@[k]) || key@[k] == '_'),
        decreases n - i,
    {
        let c = key.get_char(i);
        if !(c.is_alphanumeric() || c == '_') {
            return false;
        }
        i = i + 1;
    }
    true
}

fn env_find(env: &Vec<EnvVar>, key: &String) -> (r: Option<usize>)
    ensures
        (match r {
            Some(i) => i < env@.len() && env@[i as int]@.key == key@,
            None => !env_has(env@.map_values(|e: EnvVar| e@), key@),
        }),
{
    let mut i: usize = 0;
    while i < env.len()
        invariant
            0 <= i <= env@.len(),
            forall|k: int| 0 <= k < i ==> (#[trigger] env@[k])@.key != key@,
        decreases env@.len() - i,
    {
        if env[i].key.eq(key) {
            return Some(i);
        }
        i = i + 1;
    }
    proof {
        let ev = env@.map_values(|e: EnvVar| e@);
        assert forall|k: int| 0 <= k < ev.len() implies (#[trigger] ev[k]).key != key@ by {
            assert(ev[k] == env@[k]@);
        }
    }
    None
}

/// What adding an environment variable guarantees: the precise error on
/// an empty or ill-formed key or a missing box, and on success the
/// binding upserted under the upper-cased trimmed key with the box's
/// `updated_date` refreshed.
pub open spec fn add_env_post(
    pre: App,
    post: App,
    box_id: i32,
    key: Seq<char>,
    value: Seq<char>,
    now: i64,
    r: Result<(), String>,
) -> bool {
    let tk = trim_spec(key);
    let j = idx_of_id(pre.bs(), box_id);
    &&& (r is Ok <==> tk.len() > 0 && env_key_valid(key) && has_id(pre.bs(), box_id))
    &&& match r {
        Result::Err(e) => post == pre && (if tk.len() == 0 {
            e@ == "Key cannot be empty"@
        } else if !env_key_valid(key) {
            e@ == "Key must be alphanumeric with underscores only"@
        } else {
            e@ == "Box not found"@
        }),
        Result::Ok(_) => post == (App {
            boxes: post.boxes,
            ..pre
        }) && post.bs() == pre.bs().update(
            j,
            BoxV {
                env_vars: env_upsert(pre.bs()[j].env_vars, upper_of(tk), value),
                updated_date: now,
                ..pre.bs()[j]
            },
        ),
    }
}

impl App {
    /// Open the environment-variable editor for a box, resetting its
    /// cursor; `None` when the box does not exist.
    pub fn start_edit_env_vars(&mut self, box_id: i32) -> (r: Option<EnvVarForm>)
        requires
            old(self).wf(),
        ensures
            final(self).wf(),
            (if has_id(old(self).bs(), box_id) {
                &&& *final(self) == (App {
                    view: AppView::EditEnvVars(box_id),
                    selected_env_var: None::<usize>,
                    ..*old(self)
                })
                &&& (match r {
                    Some(f) => f.key@ == Seq::<char>::empty() && f.value@
                        == Seq::<char>::empty() && f.current_field == 0,
                    None => false,
                })
            } else {
                *final(self) == *old(self) && (r is None)
            }),
    {
        match self.find_box_index(box_id) {
            Some(_) => {
                self.view = AppView::EditEnvVars(box_id);
                self.selected_env_var = None;
                Some(EnvVarForm { key: String::new(), value: String::new(), current_field: 0 })
            },
            None => None,
        }
    }

    /// Add or overwrite an environment variable, stamping the box with
    /// `now`.
    pub fn add_env_var_at(&mut self, box_id: i32, key: String, value: String, now: i64) -> (r:
        Result<(), String>)
        requires
            old(self).wf(),
            ts_in_range(now),
        ensures
            final(self).wf(),
            add_env_post(*old(self), *final(self), box_id, key@, value@, now, r),
    {
        let tk = trim_str(key.as_str());
        if tk.as_str().unicode_len() == 0 {
            return Err(String::from_str("Key cannot be empty"));
        }
        if !check_env_key(key.as_str()) {
            return Err(String::from_str("Key must be alphanumeric with underscores only"));
        }
        let j = match self.find_box_index(box_id) {
            Some(j) => j,
            None => {
                return Err(String::from_str("Box not found"));
            },
        };
        proof {
            lemma_idx_of_id_is(old(self).bs(), box_id, j as int);
        }
        let up = tk.as_str().to_uppercase();
        let mut bx = self.boxes.remove(j);
        let ghost pre_box = bx@;
        let pos = env_find(&bx.env_vars, &up);
        match pos {
            Some(p) => {
                let mut entry = bx.env_vars.remove(p);
                entry.value = value;
                bx.env_vars.insert(p, entry);
                proof {
                    let ev = pre_box.env_vars;
                    assert(ev[p as int].key == up@);
                    lemma_env_index_is(ev, up@, p as int);
                    assert(bx@.env_vars =~= env_upsert(ev, upper_of(trim_spec(key@)), value@));
                }
            },
            None => {
                bx.env_vars.push(EnvVar { key: up, value });
                proof {
                    let ev = pre_box.env_vars;
                    assert(bx@.env_vars =~= env_upsert(ev, upper_of(trim_spec(key@)), value@));
                }
            },
        }
        bx.updated_date = now;
        self.boxes.insert(j, bx);
        proof {
            let jj = j as int;
            let nb = BoxV {
                env_vars: env_upsert(pre_box.env_vars, upper_of(trim_spec(key@)), value@),
                updated_date: now,
                ..old(self).bs()[jj]
            };
            assert(bx@ == nb);
            crate::model::lemma_env_upsert_wf(pre_box.env_vars, upper_of(trim_spec(key@)), value@);
            assert(self.bs() =~= old(self).bs().update(jj, nb));
            lemma_wf_update_env(old(self).bs(), jj, nb);
        }
        Ok(())
    }

    /// Add or overwrite an environment variable, stamping the box with
    /// the current wall-clock time. Validation failures leave the state
    /// untouched.
    pub fn add_env_var(&mut self, box_id: i32, key: String, value: String) -> (r: Result<
        (),
        String,
    >)
        requires
            old(self).wf(),
        ensures
            final(self).wf(),
            (exists|now: i64|
                ts_in_range(now) && add_env_post(
                    *old(self),
                    *final(self),
                    box_id,
                    key@,
                    value@,
                    now,
                    r,
                )),
    {
        let now = clamp_ts(now_millis());
        let r = self.add_env_var_at(box_id, key, value, now);
        r
    }
}

proof fn lemma_env_index_is(ev: Seq<EnvVarV>, key: Seq<char>, p: int)
    requires
        env_wf(ev),
        0 <= p < ev.len(),
        ev[p].key == key,
    ensures
        env_has(ev, key),
        env_index(ev, key) == p,
{
    assert(env_has(ev, key));
    let k = env_index(ev, key);
    if k != p {
        if k < p {
            assert(ev[k].key != ev[p].key);
        } else {
            assert(ev[p].key != ev[k].key);
        }
    }
}

/// Replacing one box by a well-formed successor with the same id keeps
/// the collection well-formed.
proof fn lemma_wf_update_env(bs: Seq<BoxV>, j: int, nb: BoxV)
    requires
        boxes_wf(bs),
        0 <= j < bs.len(),
        nb.id == bs[j].id,
        box_wf(nb),
    ensures
        boxes_wf(bs.update(j, nb)),
{
    let post = bs.update(j, nb);
    assert forall|a: int| 0 <= a < post.len() implies box_wf(#[trigger] post[a]) by {
        if a != j {
            assert(post[a] == bs[a]);
        }
    }
    assert forall|a: int, b: int| 0 <= a < b < post.len() implies post[a].id != post[b].id by {
        assert(bs[a].id != bs[b].id);
    }
}


/// What deleting an environment variable by key guarantees.
pub open spec fn del_env_post(
    pre: App,
    post: App,
    box_id: i32,
    key: Seq<char>,
    now: i64,
    r: Result<(), String>,
) -> bool {
    let j = idx_of_id(pre.bs(), box_id);
    let ev = pre.bs()[j].env_vars;
    &&& (r is Ok <==> has_id(pre.bs(), box_id) && env_has(ev, key))
    &&& match r {
        Result::Err(e) => post == pre && (if !has_id(pre.bs(), box_id) {
            e@ == "Box not found"@
        } else {
            e@ == "Variable not found"@
        }),
        Result::Ok(_) => post == (App { boxes: post.boxes, ..pre }) && post.bs() == pre.bs().update(
            j,
            BoxV { env_vars: ev.remove(env_index(ev, key)), updated_date: now, ..pre.bs()[j] },
        ),
    }
}

/// What deleting the selected environment variable guarantees: the entry
/// at the cursor is removed and the cursor is re-clamped, `None` exactly
/// when no entries remain.
pub open spec fn del_sel_env_post(pre: App, post: App, box_id: i32, now: i64, r: Result<
    (),
    String,
>) -> bool {
    let j = idx_of_id(pre.bs(), box_id);
    let ev = pre.bs()[j].env_vars;
    let s = pre.selected_env_var->0 as int;
    &&& (r is Ok <==> (pre.selected_env_var is Some) && has_id(pre.bs(), box_id) && s < ev.len())
    &&& match r {
        Result::Err(e) => post == pre && (if pre.selected_env_var is None {
            e@ == "No variable selected"@
        } else if !has_id(pre.bs(), box_id) {
            e@ == "Box not found"@
        } else {
            e@ == "Invalid selection"@
        }),
        Result::Ok(_) => {
            &&& post.bs() == pre.bs().update(
                j,
                BoxV { env_vars: ev.remove(s), updated_date: now, ..pre.bs()[j] },
            )
            &&& post.selected_env_var == (if ev.len() - 1 == 0 {
                None::<usize>
            } else if s >= ev.len() - 1 {
                Some((ev.len() - 2) as usize)
            } else {
                Some(s as usize)
            })
            &&& post == (App {
                boxes: post.boxes,
                selected_env_var: post.selected_env_var,
                ..pre
            })
        },
    }
}

impl App {
    /// Remove an environment variable by key, stamping the box with
    /// `now`.
    pub fn delete_env_var_at(&mut self, box_id: i32, key: &str, now: i64) -> (r: Result<
        (),
        String,
    >)
        requires
            old(self).wf(),
            ts_in_range(now),
        ensures
            final(self).wf(),
            del_env_post(*old(self), *final(self), box_id, key@, now, r),
    {
        let j = match self.find_box_index(box_id) {
            Some(j) => j,
            None => {
                return Err(String::from_str("Box not found"));
            },
        };
        proof {
            lemma_idx_of_id_is(old(self).bs(), box_id, j as int);
        }
        let ks = String::from_str(key);
        let pos = env_find(&self.boxes[j].env_vars, &ks);
        let p = match pos {
            Some(p) => p,
            None => {
                return Err(String::from_str("Variable not found"));
            },
        };
        let mut bx = self.boxes.remove(j);
        let ghost pre_box = bx@;
        bx.env_vars.remove(p);
        bx.updated_date = now;
        proof {
            lemma_env_index_is(pre_box.env_vars, key@, p as int);
        }
        self.boxes.insert(j, bx);
        proof {
            let jj = j as int;
            let ev = pre_box.env_vars;
            let nb = BoxV {
                env_vars: ev.remove(env_index(ev, key@)),
                updated_date: now,
                ..old(self).bs()[jj]
            };
            assert(bx@.env_vars =~= ev.remove(p as int));
            assert(bx@ == nb);
            assert(self.bs() =~= old(self).bs().update(jj, nb));
            lemma_env_remove_wf(ev, p as int);
            lemma_wf_update_env(old(self).bs(), jj, nb);
        }
        Ok(())
    }

    /// Remove an environment variable by key, stamping the box with the
    /// current wall-clock time.
    pub fn delete_env_var(&mut self, box_id: i32, key: &str) -> (r: Result<(), String>)
        requires
            old(self).wf(),
        ensures
            final(self).wf(),
            (exists|now: i64|
                ts_in_range(now) && del_env_post(*old(self), *final(self), box_id, key@, now, r)),
    {
        let now = clamp_ts(now_millis());
        self.delete_env_var_at(box_id, key, now)
    }

    /// Advance the environment-variable form cursor over its two fields.
    pub fn next_env_field(&mut self, form: &mut EnvVarForm)
        ensures
            *final(self) == *old(self),
            *final(form) == (EnvVarForm {
                current_field: if old(form).current_field % 2 == 0 {
                    1usize
                } else {
                    0usize
                },
                ..*old(form)
            }),
    {
        form.current_field = if form.current_field % 2 == 0 {
            1
        } else {
            0
        };
    }

    /// Retreat the environment-variable form cursor over its two fields.
    pub fn previous_env_field(&mut self, form: &mut EnvVarForm)
        ensures
            *final(self) == *old(self),
            *final(form) == (EnvVarForm {
                current_field: if old(form).current_field == 0 {
                    1usize
                } else {
                    0usize
                },
                ..*old(form)
            }),
    {
        form.current_field = if form.current_field == 0 {
            1
        } else {
            0
        };
    }

    /// Move the environment-variable cursor forward circularly; no-op
    /// when the box is missing or has no entries.
    pub fn next_env_var(&mut self, box_id: i32)
        requires
            old(self).wf(),
        ensures
            final(self).wf(),
            (if has_id(old(self).bs(), box_id) && old(self).bs()[idx_of_id(
                old(self).bs(),
                box_id,
            )].env_vars.len() > 0 {
                *final(self) == (App {
                    selected_env_var: Some(
                        (match old(self).selected_env_var {
                            Some(i) => cyc_next_idx(
                                i as int,
                                old(self).bs()[idx_of_id(old(self).bs(), box_id)].env_vars.len() as int,
                            ),
                            None => 0,
                        }) as usize,
                    ),
                    ..*old(self)
                })
            } else {
                *final(self) == *old(self)
            }),
    {
        let j = match self.find_box_index(box_id) {
            Some(j) => j,
            None => {
                return ;
            },
        };
        proof {
            lemma_idx_of_id_is(self.bs(), box_id, j as int);
        }
        let count = self.boxes[j].env_vars.len();
        if count == 0 {
            return ;
        }
        let nxt = match self.selected_env_var {
            Some(i) => if i >= count - 1 {
                0
            } else {
                i + 1
            },
            None => 0,
        };
        self.selected_env_var = Some(nxt);
    }

    /// Move the environment-variable cursor backward circularly; no-op
    /// when the box is missing or has no entries.
    pub fn previous_env_var(&mut self, box_id: i32)
        requires
            old(self).wf(),
        ensures
            final(self).wf(),
            (if has_id(old(self).bs(), box_id) && old(self).bs()[idx_of_id(
                old(self).bs(),
                box_id,
            )].env_vars.len() > 0 {
                *final(self) == (App {
                    selected_env_var: Some(
                        (match old(self).selected_env_var {
                            Some(i) => if i == 0 {
                                old(self).bs()[idx_of_id(old(self).bs(), box_id)].env_vars.len()
                                    - 1
                            } else {
                                i - 1
                            },
                            None => old(self).bs()[idx_of_id(old(self).bs(), box_id)].env_vars.len()
                                - 1,
                        }) as usize,
                    ),
                    ..*old(self)
                })
            } else {
                *final(self) == *old(self)
            }),
    {
        let j = match self.find_box_index(box_id) {
            Some(j) => j,
            None => {
                return ;
            },
        };
        proof {
            lemma_idx_of_id_is(self.bs(), box_id, j as int);
        }
        let count = self.boxes[j].env_vars.len();
        if count == 0 {
            return ;
        }
        let prv = match self.selected_env_var {
            Some(i) => if i == 0 {
                count - 1
            } else {
                i - 1
            },
            None => count - 1,
        };
        self.selected_env_var = Some(prv);
    }

    /// Remove the entry under the environment-variable cursor, stamping
    /// the box with `now` and re-clamping the cursor.
    pub fn delete_selected_env_var_at(&mut self, box_id: i32, now: i64) -> (r: Result<(), String>)
        requires
            old(self).wf(),
            ts_in_range(now),
        ensures
            final(self).wf(),
            del_sel_env_post(*old(self), *final(self), box_id, now, r),
    {
        let s = match self.selected_env_var {
            Some(s) => s,
            None => {
                return Err(String::from_str("No variable selected"));
            },
        };
        let j = match self.find_box_index(box_id) {
            Some(j) => j,
            None => {
                return Err(String::from_str("Box not found"));
            },
        };
        proof {
            lemma_idx_of_id_is(old(self).bs(), box_id, j as int);
        }
        if s >= self.boxes[j].env_vars.len() {
            return Err(String::from_str("Invalid selection"));
        }
        let mut bx = self.boxes.remove(j);
        let ghost pre_box = bx@;
        bx.env_vars.remove(s);
        bx.updated_date = now;
        let new_count = bx.env_vars.len();
        self.boxes.insert(j, bx);
        if new_count == 0 {
            self.selected_env_var = None;
        } else if s >= new_count {
            self.selected_env_var = Some(new_count - 1);
        }
        proof {
            let jj = j as int;
            let ev = pre_box.env_vars;
            let nb = BoxV { env_vars: ev.remove(s as int), updated_date: now, ..old(self).bs()[jj] };
            assert(bx@.env_vars =~= ev.remove(s as int));
            assert(bx@ == nb);
            assert(self.bs() =~= old(self).bs().update(jj, nb));
            lemma_env_remove_wf(ev, s as int);
            lemma_wf_update_env(old(self).bs(), jj, nb);
        }
        Ok(())
    }

    /// Remove the entry under the environment-variable cursor, stamping
    /// the box with the current wall-clock time.
    pub fn delete_selected_env_var(&mut self, box_id: i32) -> (r: Result<(), String>)
        requires
            old(self).wf(),
        ensures
            final(self).wf(),
            (exists|now: i64|
                ts_in_range(now) && del_sel_env_post(*old(self), *final(self), box_id, now, r)),
    {
        let now = clamp_ts(now_millis());
        self.delete_selected_env_var_at(box_id, now)
    }
}

/// Removing one entry keeps the keys pairwise distinct.
proof fn lemma_env_remove_wf(ev: Seq<EnvVarV>, p: int)
    requires
        env_wf(ev),
        0 <= p < ev.len(),
    ensures
        env_wf(ev.remove(p)),
{
    let post = ev.remove(p);
    assert forall|a: int, b: int| 0 <= a < b < post.len() implies post[a].key != post[b].key by {
        let a0: int = if a < p { a } else { a + 1 };
        let b0: int = if b < p { b } else { b + 1 };
        assert(post[a] == ev[a0]);
        assert(post[b] == ev[b0]);
        assert(ev[a0].key != ev[b0].key);
    }
}


/// What adding a note guarantees: the precise error on blank content, a
/// bad category index or a missing box; on success the trimmed note
/// appended under the chosen category with the box stamped.
pub open spec fn add_note_post(
    pre: App,
    post: App,
    box_id: i32,
    category_index: usize,
    content: Seq<char>,
    now: i64,
    r: Result<(), String>,
) -> bool {
    let tc = trim_spec(content);
    let j = idx_of_id(pre.bs(), box_id);
    &&& (r is Ok <==> tc.len() > 0 && category_index < 9 && has_id(pre.bs(), box_id))
    &&& match r {
        Result::Err(e) => post == pre && (if tc.len() == 0 {
            e@ == "Content cannot be empty"@
        } else if category_index >= 9 {
            e@ == "Invalid category"@
        } else {
            e@ == "Box not found"@
        }),
        Result::Ok(_) => post == (App { boxes: post.boxes, ..pre }) && post.bs() == pre.bs().update(
            j,
            BoxV {
                notes: pre.bs()[j].notes.push(
                    crate::model::NoteV {
                        category: category_order()[category_index as int],
                        content: tc,
                        created_date: now,
                    },
                ),
                updated_date: now,
                ..pre.bs()[j]
            },
        ),
    }
}

/// What deleting the selected note guarantees: the note at the cursor is
/// removed and the cursor re-clamped, `None` exactly when none remain.
pub open spec fn del_sel_note_post(pre: App, post: App, box_id: i32, now: i64, r: Result<
    (),
    String,
>) -> bool {
    let j = idx_of_id(pre.bs(), box_id);
    let ns = pre.bs()[j].notes;
    let s = pre.selected_note->0 as int;
    &&& (r is Ok <==> (pre.selected_note is Some) && has_id(pre.bs(), box_id) && s < ns.len())
    &&& match r {
        Result::Err(e) => post == pre && (if pre.selected_note is None {
            e@ == "No note selected"@
        } else if !has_id(pre.bs(), box_id) {
            e@ == "Box not found"@
        } else {
            e@ == "Invalid selection"@
        }),
        Result::Ok(_) => {
            &&& post.bs() == pre.bs().update(
                j,
                BoxV { notes: ns.remove(s), updated_date: now, ..pre.bs()[j] },
            )
            &&& post.selected_note == (if ns.len() - 1 == 0 {
                None::<usize>
            } else if s >= ns.len() - 1 {
                Some((ns.len() - 2) as usize)
            } else {
                Some(s as usize)
            })
            &&& post == (App { boxes: post.boxes, selected_note: post.selected_note, ..pre })
        },
    }
}

/// The seeded output path of a write-up: the lower-cased title with
/// spaces turned into hyphens, with a fixed suffix.
pub open spec fn slug_spec(title: Seq<char>) -> Seq<char> {
    crate::text::replace_char(lower_of(title), ' ', '-') + "-writeup.md"@
}

impl App {
    /// Open the note editor for a box, clearing the note cursor; no-op
    /// when the box does not exist.
    pub fn start_edit_notes(&mut self, box_id: i32)
        requires
            old(self).wf(),
        ensures
            final(self).wf(),
            (if has_id(old(self).bs(), box_id) {
                *final(self) == (App {
                    view: AppView::EditNotes(box_id),
                    selected_note: None::<usize>,
                    ..*old(self)
                })
            } else {
                *final(self) == *old(self)
            }),
    {
        match self.find_box_index(box_id) {
            Some(_) => {
                self.view = AppView::EditNotes(box_id);
                self.selected_note = None;
            },
            None => {},
        }
    }

    /// Append a note under a category, stamping the box with `now`.
    pub fn add_note_at(
        &mut self,
        box_id: i32,
        category_index: usize,
        content: String,
        now: i64,
    ) -> (r: Result<(), String>)
        requires
            old(self).wf(),
            ts_in_range(now),
        ensures
            final(self).wf(),
            add_note_post(*old(self), *final(self), box_id, category_index, content@, now, r),
    {
        let tc = trim_str(content.as_str());
        if tc.as_str().unicode_len() == 0 {
            return Err(String::from_str("Content cannot be empty"));
        }
        let cats = Self::note_categories();
        if category_index >= cats.len() {
            return Err(String::from_str("Invalid category"));
        }
        let j = match self.find_box_index(box_id) {
            Some(j) => j,
            None => {
                return Err(String::from_str("Box not found"));
            },
        };
        proof {
            lemma_idx_of_id_is(old(self).bs(), box_id, j as int);
        }
        let category = cats[category_index];
        let mut bx = self.boxes.remove(j);
        let ghost pre_box = bx@;
        bx.notes.push(Note { category, content: tc, created_date: now });
        bx.updated_date = now;
        self.boxes.insert(j, bx);
        proof {
            let jj = j as int;
            let nn = crate::model::NoteV {
                category: category_order()[category_index as int],
                content: trim_spec(content@),
                created_date: now,
            };
            let nb = BoxV {
                notes: pre_box.notes.push(nn),
                updated_date: now,
                ..old(self).bs()[jj]
            };
            assert(bx@.notes =~= pre_box.notes.push(nn));
            assert(bx@ == nb);
            assert(self.bs() =~= old(self).bs().update(jj, nb));
            lemma_trim_idempotent(content@);
            assert(note_wf(nn));
            assert forall|a: int| 0 <= a < nb.notes.len() implies note_wf(
                #[trigger] nb.notes[a],
            ) by {
                if a < pre_box.notes.len() {
                    assert(nb.notes[a] == pre_box.notes[a]);
                }
            }
            lemma_wf_update_env(old(self).bs(), jj, nb);
        }
        Ok(())
    }

    /// Append a note under a category, stamping the box with the current
    /// wall-clock time. Validation failures leave the state untouched.
    pub fn add_note(&mut self, box_id: i32, category_index: usize, content: String) -> (r: Result<
        (),
        String,
    >)
        requires
            old(self).wf(),
        ensures
            final(self).wf(),
            (exists|now: i64|
                ts_in_range(now) && add_note_post(
                    *old(self),
                    *final(self),
                    box_id,
                    category_index,
                    content@,
                    now,
                    r,
                )),
    {
        let now = clamp_ts(now_millis());
        self.add_note_at(box_id, category_index, content, now)
    }

    /// Remove the note under the cursor, stamping the box with `now` and
    /// re-clamping the cursor.
    pub fn delete_selected_note_at(&mut self, box_id: i32, now: i64) -> (r: Result<(), String>)
        requires
            old(self).wf(),
            ts_in_range(now),
        ensures
            final(self).wf(),
            del_sel_note_post(*old(self), *final(self), box_id, now, r),
    {
        let s = match self.selected_note {
            Some(s) => s,
            None => {
                return Err(String::from_str("No note selected"));
            },
        };
        let j = match self.find_box_index(box_id) {
            Some(j) => j,
            None => {
                return Err(String::from_str("Box not found"));
            },
        };
        proof {
            lemma_idx_of_id_is(old(self).bs(), box_id, j as int);
        }
        if s >= self.boxes[j].notes.len() {
            return Err(String::from_str("Invalid selection"));
        }
        let mut bx = self.boxes.remove(j);
        let ghost pre_box = bx@;
        bx.notes.remove(s);
        bx.updated_date = now;
        let new_count = bx.notes.len();
        self.boxes.insert(j, bx);
        if new_count == 0 {
            self.selected_note = None;
        } else if s >= new_count {
            self.selected_note = Some(new_count - 1);
        }
        proof {
            let jj = j as int;
            let ns = pre_box.notes;
            let nb = BoxV { notes: ns.remove(s as int), updated_date: now, ..old(self).bs()[jj] };
            assert(bx@.notes =~= ns.remove(s as int));
            assert(bx@ == nb);
            assert(self.bs() =~= old(self).bs().update(jj, nb));
            assert forall|a: int| 0 <= a < nb.notes.len() implies note_wf(
                #[trigger] nb.notes[a],
            ) by {
                let a0: int = if a < s { a } else { a + 1 };
                assert(nb.notes[a] == ns[a0]);
            }
            lemma_wf_update_env(old(self).bs(), jj, nb);
        }
        Ok(())
    }

    /// Remove the note under the cursor, stamping the box with the
    /// current wall-clock time.
    pub fn delete_selected_note(&mut self, box_id: i32) -> (r: Result<(), String>)
        requires
            old(self).wf(),
        ensures
            final(self).wf(),
            (exists|now: i64|
                ts_in_range(now) && del_sel_note_post(*old(self), *final(self), box_id, now, r)),
    {
        let now = clamp_ts(now_millis());
        self.delete_selected_note_at(box_id, now)
    }

    /// Move the note cursor forward circularly; no-op when the box is
    /// missing or has no notes.
    pub fn next_note(&mut self, box_id: i32)
        requires
            old(self).wf(),
        ensures
            final(self).wf(),
            (if has_id(old(self).bs(), box_id) && old(self).bs()[idx_of_id(
                old(self).bs(),
                box_id,
            )].notes.len() > 0 {
                *final(self) == (App {
                    selected_note: Some(
                        (match old(self).selected_note {
                            Some(i) => cyc_next_idx(
                                i as int,
                                old(self).bs()[idx_of_id(old(self).bs(), box_id)].notes.len() as int,
                            ),
                            None => 0,
                        }) as usize,
                    ),
                    ..*old(self)
                })
            } else {
                *final(self) == *old(self)
            }),
    {
        let j = match self.find_box_index(box_id) {
            Some(j) => j,
            None => {
                return ;
            },
        };
        proof {
            lemma_idx_of_id_is(self.bs(), box_id, j as int);
        }
        let count = self.boxes[j].notes.len();
        if count == 0 {
            return ;
        }
        let nxt = match self.selected_note {
            Some(i) => if i >= count - 1 {
                0
            } else {
                i + 1
            },
            None => 0,
        };
        self.selected_note = Some(nxt);
    }

    /// Move the note cursor backward circularly; no-op when the box is
    /// missing or has no notes.
    pub fn previous_note(&mut self, box_id: i32)
        requires
            old(self).wf(),
        ensures
            final(self).wf(),
            (if has_id(old(self).bs(), box_id) && old(self).bs()[idx_of_id(
                old(self).bs(),
                box_id,
            )].notes.len() > 0 {
                *final(self) == (App {
                    selected_note: Some(
                        (match old(self).selected_note {
                            Some(i) => if i == 0 {
                                old(self).bs()[idx_of_id(old(self).bs(), box_id)].notes.len() - 1
                            } else {
                                i - 1
                            },
                            None => old(self).bs()[idx_of_id(old(self).bs(), box_id)].notes.len()
                                - 1,
                        }) as usize,
                    ),
                    ..*old(self)
                })
            } else {
                *final(self) == *old(self)
            }),
    {
        let j = match self.find_box_index(box_id) {
            Some(j) => j,
            None => {
                return ;
            },
        };
        proof {
            lemma_idx_of_id_is(self.bs(), box_id, j as int);
        }
        let count = self.boxes[j].notes.len();
        if count == 0 {
            return ;
        }
        let prv = match self.selected_note {
            Some(i) => if i == 0 {
                count - 1
            } else {
                i - 1
            },
            None => count - 1,
        };
        self.selected_note = Some(prv);
    }

    /// Seed the write-up export view: derive the output path from the
    /// box title and open the export view; no-op when the box is missing.
    pub fn start_writeup_export(&mut self, box_id: i32)
        requires
            old(self).wf(),
        ensures
            final(self).wf(),
            (if has_id(old(self).bs(), box_id) {
                &&& final(self).writeup_path@ == slug_spec(
                    old(self).bs()[idx_of_id(old(self).bs(), box_id)].title,
                )
                &&& *final(self) == (App {
                    view: AppView::WriteupExport(box_id),
                    writeup_path: final(self).writeup_path,
                    ..*old(self)
                })
            } else {
                *final(self) == *old(self)
            }),
    {
        let j = match self.find_box_index(box_id) {
            Some(j) => j,
            None => {
                return ;
            },
        };
        proof {
            lemma_idx_of_id_is(self.bs(), box_id, j as int);
        }
        let lower = self.boxes[j].title.as_str().to_lowercase();
        let parts = crate::text::split_char(lower.as_str(), ' ');
        proof {
            crate::text::lemma_split_sep_len(lower@, ' ');
            assert(Seq::new(parts@.len(), |i: int| parts@[i]@) =~= crate::text::split_sep(
                lower@,
                ' ',
            ));
        }
        let mut path = crate::text::join_dash(&parts);
        proof {
            reveal_strlit("-writeup.md");
            crate::text::lemma_join_split_replace(lower@, ' ', '-');
        }
        path.append("-writeup.md");
        self.writeup_path = path;
        self.view = AppView::WriteupExport(box_id);
    }

    /// The box carrying `id`, if any.
    pub fn box_by_id(&self, box_id: i32) -> (r: Option<&CtfBox>)
        requires
            self.wf(),
        ensures
            (match r {
                Some(b) => has_id(self.bs(), box_id) && b@ == self.bs()[idx_of_id(
                    self.bs(),
                    box_id,
                )] && b@.id == box_id,
                None => !has_id(self.bs(), box_id),
            }),
    {
        let j = match self.find_box_index(box_id) {
            Some(j) => j,
            None => {
                return None;
            },
        };
        proof {
            lemma_idx_of_id_is(self.bs(), box_id, j as int);
        }
        Some(&self.boxes[j])
    }
}


/// What importing shell-log text guarantees: nothing changes when the box
/// is missing; otherwise the surviving records are merged into the box's
/// actions without duplicating a (timestamp, command) pair, the list is
/// re-sorted by timestamp, the box is stamped, and the count of newly
/// merged actions is returned.
pub open spec fn import_post(
    pre: App,
    post: App,
    box_id: i32,
    incoming: Seq<crate::model::ActionV>,
    now: i64,
    count: usize,
) -> bool {
    if !has_id(pre.bs(), box_id) {
        post == pre && count == 0
    } else {
        let j = idx_of_id(pre.bs(), box_id);
        let m = crate::shell_log::merge_spec(pre.bs()[j].actions, incoming);
        &&& post.bs() == pre.bs().update(
            j,
            BoxV {
                actions: crate::shell_log::stable_sort(m),
                updated_date: now,
                ..pre.bs()[j]
            },
        )
        &&& count == m.len() - pre.bs()[j].actions.len()
        &&& post == (App { boxes: post.boxes, ..pre })
    }
}

impl App {
    /// Import shell-log text for a box, stamping the merge with `now`:
    /// each non-blank line is parsed on its own, malformed lines are
    /// skipped, auto-logged echoes without output are dropped, and the
    /// survivors are merged into the box's actions with de-duplication
    /// on (timestamp, command), which are then re-sorted by timestamp.
    pub fn import_shell_logs_at(&mut self, box_id: i32, log_text: &str, now: i64) -> (count: usize)
        requires
            old(self).wf(),
            ts_in_range(now),
        ensures
            final(self).wf(),
            import_post(
                *old(self),
                *final(self),
                box_id,
                crate::shell_log::records_of(log_text@, now),
                now,
                count,
            ),
    {
        let ghost lv = crate::text::split_sep(log_text@, '\u{000A}');
        let lines = crate::text::split_char(log_text, '\u{000A}');
        let mut incoming: Vec<Action> = Vec::new();
        let mut i: usize = 0;
        proof {
            assert(lv.subrange(0, 0) =~= Seq::<Seq<char>>::empty());
            assert(incoming@.map_values(|a: Action| a@) =~= crate::shell_log::records_of_lines(
                lv.subrange(0, 0),
                now,
            ));
        }
        while i < lines.len()
            invariant
                0 <= i <= lines@.len(),
                lines@.len() == lv.len(),
                forall|k: int| 0 <= k < lv.len() ==> #[trigger] lines@[k]@ == lv[k],
                ts_in_range(now),
                incoming@.map_values(|a: Action| a@) == crate::shell_log::records_of_lines(
                    lv.subrange(0, i as int),
                    now,
                ),
                forall|k: int|
                    0 <= k < incoming@.len() ==> ts_in_range(
                        (#[trigger] incoming@[k]@).timestamp,
                    ),
            decreases lines@.len() - i,
        {
            let ghost pre = lv.subrange(0, i + 1);
            let ghost cur = incoming@.map_values(|a: Action| a@);
            proof {
                assert(pre.drop_last() =~= lv.subrange(0, i as int));
                assert(pre.last() == lv[i as int]);
            }
            let line = lines[i].as_str();
            let t = trim_str(line);
            if t.as_str().unicode_len() > 0 {
                match crate::shell_log::parse_log_record(line) {
                    Some(rec) => {
                        match crate::shell_log::convert_record(rec, now) {
                            Some(a) => {
                                proof {
                                    assert(crate::shell_log::line_actions(lv[i as int], now)
                                        =~= seq![a@]);
                                }
                                incoming.push(a);
                                proof {
                                    assert(incoming@.map_values(|x: Action| x@) =~= cur + seq![
                                        a@,
                                    ]);
                                }
                            },
                            None => {
                                proof {
                                    assert(crate::shell_log::line_actions(lv[i as int], now)
                                        =~= Seq::<crate::model::ActionV>::empty());
                                    assert(crate::shell_log::records_of_lines(pre, now) =~= cur);
                                }
                            },
                        }
                    },
                    None => {
                        proof {
                            assert(crate::shell_log::line_actions(lv[i as int], now)
                                =~= Seq::<crate::model::ActionV>::empty());
                            assert(crate::shell_log::records_of_lines(pre, now) =~= cur);
                        }
                    },
                }
            } else {
                proof {
                    assert(trim_spec(lv[i as int]).len() == 0);
                    assert(crate::shell_log::line_actions(lv[i as int], now)
                        =~= Seq::<crate::model::ActionV>::empty());
                    assert(crate::shell_log::records_of_lines(pre, now) =~= cur);
                }
            }
            i = i + 1;
        }
        let ghost iv = incoming@.map_values(|a: Action| a@);
        proof {
            assert(lv.subrange(0, lv.len() as int) =~= lv);
            assert(iv == crate::shell_log::records_of(log_text@, now));
        }
        let j = match self.find_box_index(box_id) {
            Some(j) => j,
            None => {
                return 0;
            },
        };
        proof {
            lemma_idx_of_id_is(old(self).bs(), box_id, j as int);
        }
        let mut bx = self.boxes.remove(j);
        let ghost pre_box = bx@;
        let added = crate::shell_log::merge_actions(&mut bx.actions, incoming);
        crate::shell_log::sort_actions(&mut bx.actions);
        bx.updated_date = now;
        self.boxes.insert(j, bx);
        proof {
            let jj = j as int;
            let m = crate::shell_log::merge_spec(pre_box.actions, iv);
            let nb = BoxV {
                actions: crate::shell_log::stable_sort(m),
                updated_date: now,
                ..old(self).bs()[jj]
            };
            assert(bx@ == nb);
            assert(self.bs() =~= old(self).bs().update(jj, nb));
            assert(forall|k: int| 0 <= k < pre_box.actions.len() ==> ts_in_range(
                (#[trigger] pre_box.actions[k]).timestamp,
            )) by {
                assert(crate::model::box_wf(old(self).bs()[jj]));
            }
            assert(forall|k: int| 0 <= k < iv.len() ==> ts_in_range(
                (#[trigger] iv[k]).timestamp,
            )) by {
                assert(forall|k: int| 0 <= k < iv.len() ==> iv[k] == incoming@[k]@);
            }
            crate::shell_log::lemma_merge_spec_wf(pre_box.actions, iv);
            crate::shell_log::lemma_stable_sort_members(m);
            assert forall|k: int| 0 <= k < nb.actions.len() implies crate::model::action_wf(
                #[trigger] nb.actions[k],
            ) by {
                let w = choose|w: int| 0 <= w < m.len() && #[trigger] m[w] == nb.actions[k];
                assert(ts_in_range(m[w].timestamp));
            }
            lemma_wf_update_env(old(self).bs(), jj, nb);
            assert(import_post(*old(self), *self, box_id, iv, now, added));
        }
        added
    }

    /// Import shell-log text for a box, stamping the merge with the
    /// current wall-clock time; returns how many new actions arrived.
    pub fn import_shell_logs(&mut self, box_id: i32, log_text: &str) -> (count: usize)
        requires
            old(self).wf(),
        ensures
            final(self).wf(),
            (exists|now: i64|
                ts_in_range(now) && import_post(
                    *old(self),
                    *final(self),
                    box_id,
                    crate::shell_log::records_of(log_text@, now),
                    now,
                    count,
                )),
    {
        let now = clamp_ts(now_millis());
        let count = self.import_shell_logs_at(box_id, log_text, now);
        proof {
            assert(import_post(
                *old(self),
                *self,
                box_id,
                crate::shell_log::records_of(log_text@, now),
                now,
                count,
            ));
        }
        count
    }
}

} // verus!
