//! The file browser provider: how directory entries are shown, how a
//! listing is cut and ordered, and which response answers a request.

use vstd::prelude::*;
use vstd::relations::*;

verus! {

/// What a listing needs to know of one directory entry.
pub struct PathInfo {
    /// The last component of the entry's path.
    pub file_name: String,
    pub is_dir: bool,
    /// The glyph shown before the name when icons are enabled.
    pub icon: String,
}

/// A directory entry as the file browser shows it.
pub struct DisplayPath {
    inner: PathInfo,
    enable_icon: bool,
}

/// The separator appended to the name of a directory.
pub open spec fn separator() -> char {
    '/'
}

/// The text shown for an entry: its name, with a trailing separator for a
/// directory, after its icon and a space when icons are enabled.
pub open spec fn display_view(p: PathInfo, enable_icon: bool) -> Seq<char> {
    let path_str = if p.is_dir {
        p.file_name@.push(separator())
    } else {
        p.file_name@
    };
    if enable_icon {
        p.icon@.push(' ') + path_str
    } else {
        path_str
    }
}

impl DisplayPath {
    pub closed spec fn path(&self) -> PathInfo {
        self.inner
    }

    pub closed spec fn icon_enabled(&self) -> bool {
        self.enable_icon
    }

    pub fn new(path: PathInfo, enable_icon: bool) -> (r: DisplayPath)
        ensures
            r.path() == path,
            r.icon_enabled() == enable_icon,
    {
        DisplayPath { inner: path, enable_icon }
    }

    pub fn to_file_name_str(&self) -> (r: &str)
        ensures
            r@ == self.path().file_name@,
    {
        self.inner.file_name.as_str()
    }

    /// The text shown for this entry.
    pub fn to_display_string(&self) -> (r: String)
        ensures
            r@ == display_view(self.path(), self.icon_enabled()),
    {
        let mut path_str = self.inner.file_name.clone();
        if self.inner.is_dir {
            proof {
                reveal_strlit("/");
            }
            path_str.append("/");
        }
        if self.enable_icon {
            let mut shown = self.inner.icon.clone();
            proof {
                reveal_strlit(" ");
            }
            shown.append(" ");
            shown.append(path_str.as_str());
            shown
        } else {
            path_str
        }
    }
}

/// Lexicographic order of character sequences, by code point.
pub open spec fn str_leq(a: Seq<char>, b: Seq<char>) -> bool
    decreases a.len(),
{
    if a.len() == 0 {
        true
    } else if b.len() == 0 {
        false
    } else if a[0] != b[0] {
        (a[0] as int) < (b[0] as int)
    } else {
        str_leq(a.drop_first(), b.drop_first())
    }
}

/// `str_leq` as a relation.
pub open spec fn str_order() -> spec_fn(Seq<char>, Seq<char>) -> bool {
    |a: Seq<char>, b: Seq<char>| str_leq(a, b)
}

proof fn lemma_str_leq_reflexive(a: Seq<char>)
    ensures
        str_leq(a, a),
    decreases a.len(),
{
    if a.len() > 0 {
        lemma_str_leq_reflexive(a.drop_first());
    }
}

proof fn lemma_str_leq_antisymmetric(a: Seq<char>, b: Seq<char>)
    requires
        str_leq(a, b),
        str_leq(b, a),
    ensures
        a == b,
    decreases a.len(),
{
    if a.len() == 0 {
        assert(b.len() == 0);
        assert(a =~= b);
    } else {
        assert(a[0] == b[0]);
        lemma_str_leq_antisymmetric(a.drop_first(), b.drop_first());
        assert(a =~= seq![a[0]] + a.drop_first());
        assert(b =~= seq![b[0]] + b.drop_first());
    }
}

proof fn lemma_str_leq_transitive(a: Seq<char>, b: Seq<char>, c: Seq<char>)
    requires
        str_leq(a, b),
        str_leq(b, c),
    ensures
        str_leq(a, c),
    decreases a.len(),
{
    if a.len() > 0 && b.len() > 0 && c.len() > 0 {
        if a[0] == b[0] && b[0] == c[0] {
            lemma_str_leq_transitive(a.drop_first(), b.drop_first(), c.drop_first());
        }
    }
}

proof fn lemma_str_leq_connected(a: Seq<char>, b: Seq<char>)
    ensures
        str_leq(a, b) || str_leq(b, a),
    decreases a.len(),
{
    if a.len() > 0 && b.len() > 0 && a[0] == b[0] {
        lemma_str_leq_connected(a.drop_first(), b.drop_first());
    } else if a.len() > 0 && b.len() > 0 {
        assert((a[0] as int) != (b[0] as int));
    }
}

proof fn lemma_str_order_total()
    ensures
        total_ordering(str_order()),
{
    assert forall|a: Seq<char>| #[trigger] str_order()(a, a) by {
        lemma_str_leq_reflexive(a);
    }
    assert forall|a: Seq<char>, b: Seq<char>|
        #[trigger] str_order()(a, b) && #[trigger] str_order()(b, a) implies a == b by {
        lemma_str_leq_antisymmetric(a, b);
    }
    assert forall|a: Seq<char>, b: Seq<char>, c: Seq<char>|
        #[trigger] str_order()(a, b) && #[trigger] str_order()(b, c) implies str_order()(a, c) by {
        lemma_str_leq_transitive(a, b, c);
    }
    assert forall|a: Seq<char>, b: Seq<char>|
        #[trigger] str_order()(a, b) || #[trigger] str_order()(b, a) by {
        lemma_str_leq_connected(a, b);
    }
}

pub open spec fn string_views(v: Seq<String>) -> Seq<Seq<char>> {
    v.map_values(|s: String| s@)
}

/// Relies on std's `slice::sort`: it orders the strings ascending by `Ord`,
/// which for `String` compares the UTF-8 bytes lexicographically, the same
/// order as comparing code points; the elements are kept.
#[verifier::external_body]
fn sort_strings(v: &mut Vec<String>)
    ensures
        sorted_by(string_views(final(v)@), str_order()),
        string_views(final(v)@).to_multiset() == string_views(old(v)@).to_multiset(),
{
    v.sort();
}

/// How many entries a listing keeps out of `n`.
pub open spec fn kept(n: int, max: Option<usize>) -> int {
    match max {
        Some(m) => if (m as int) < n {
            m as int
        } else {
            n
        },
        None => n,
    }
}

/// A listing of `entries`: the first `max` of them (all if there is no
/// bound), shown as `display_view` gives, in lexicographic order.
pub open spec fn listing_view(entries: Seq<PathInfo>, enable_icon: bool, max: Option<usize>) -> Seq<
    Seq<char>,
> {
    entries.take(kept(entries.len() as int, max)).map_values(
        |p: PathInfo| display_view(p, enable_icon),
    ).sort_by(str_order())
}

/// Lists the entries of a directory: keeps the first `max` entries in the
/// order the directory gave them, shows each as `DisplayPath` does, and
/// sorts the shown texts.
pub fn read_dir_entries(entries: Vec<PathInfo>, enable_icon: bool, max: Option<usize>) -> (r: Vec<
    String,
>)
    ensures
        string_views(r@) == listing_view(entries@, enable_icon, max),
        r.len() == kept(entries.len() as int, max),
{
    let n: usize = match max {
        Some(m) => if m < entries.len() {
            m
        } else {
            entries.len()
        },
        None => entries.len(),
    };
    let ghost shown = entries@.take(n as int).map_values(
        |p: PathInfo| display_view(p, enable_icon),
    );
    let mut out: Vec<String> = Vec::new();
    let mut i: usize = 0;
    while i < n
        invariant
            n <= entries.len(),
            i <= n,
            shown == entries@.take(n as int).map_values(
                |p: PathInfo| display_view(p, enable_icon),
            ),
            string_views(out@) == shown.take(i as int),
        decreases n - i,
    {
        let p = &entries[i];
        let d = DisplayPath::new(
            PathInfo { file_name: p.file_name.clone(), is_dir: p.is_dir, icon: p.icon.clone() },
            enable_icon,
        );
        let s = d.to_display_string();
        assert(s@ == shown[i as int]);
        let ghost before = out@;
        out.push(s);
        assert(string_views(out@) =~= string_views(before).push(shown[i as int]));
        i += 1;
        assert(string_views(out@) =~= shown.take(i as int));
    }
    assert(shown.take(n as int) =~= shown);
    sort_strings(&mut out);
    proof {
        lemma_str_order_total();
        shown.lemma_sort_by_ensures(str_order());
        vstd::seq_lib::lemma_sorted_unique(string_views(out@), shown.sort_by(str_order()), str_order());
        broadcast use vstd::seq_lib::group_to_multiset_ensures;
        assert(string_views(out@).len() == out@.len());
        assert(shown.to_multiset().len() == shown.len());
        assert(shown.sort_by(str_order()).to_multiset().len() == shown.sort_by(str_order()).len());
    }
    out
}

/// A listing bounded by `k` over more than `k` entries holds exactly `k`.
pub proof fn lemma_listing_truncated(entries: Seq<PathInfo>, enable_icon: bool, k: usize)
    requires
        (k as int) < entries.len(),
    ensures
        listing_view(entries, enable_icon, Some(k)).len() == k,
{
    let shown = entries.take(k as int).map_values(|p: PathInfo| display_view(p, enable_icon));
    lemma_str_order_total();
    shown.lemma_sort_by_ensures(str_order());
    broadcast use vstd::seq_lib::group_to_multiset_ensures;

    assert(shown.to_multiset().len() == shown.len());
    assert(shown.sort_by(str_order()).to_multiset().len() == shown.sort_by(str_order()).len());
}

/// A request that asks for a directory listing.
pub struct Message {
    pub id: u64,
    pub session_id: u64,
    pub provider_id: String,
    pub cwd: String,
}

/// A request sent when the highlighted line changes.
pub struct MoveMessage {
    pub id: u64,
    pub cwd: String,
    /// The highlighted line, as it is displayed.
    pub curline: String,
}

pub enum RpcMessage {
    OnMove(MoveMessage),
    OnTyped(Message),
}

/// What a session knows of its provider and its window.
pub struct SessionContext {
    pub provider_id: String,
    /// The preview size that the provider asks for by default.
    pub provider_preview_size: usize,
    pub preview_winheight: usize,
    /// Whether displayed lines start with an icon and a space.
    pub enable_icon: bool,
}

/// The answer to one request.
pub enum FilerResponse {
    Listing { id: u64, entries: Vec<String>, dir: String, total: usize },
    Failure { id: u64, message: String, dir: String },
}

/// `r` lists `entries` of `dir` in answer to request `id`.
pub open spec fn is_listing(r: FilerResponse, id: u64, entries: Seq<String>, dir: Seq<char>) -> bool {
    match r {
        FilerResponse::Listing { id: i, entries: e, dir: d, total: t } => {
            &&& i == id
            &&& e@ == entries
            &&& d@ == dir
            &&& t == entries.len()
        },
        _ => false,
    }
}

/// `r` reports the failure `message` about `dir` in answer to request `id`.
pub open spec fn is_failure(r: FilerResponse, id: u64, message: Seq<char>, dir: Seq<char>) -> bool {
    match r {
        FilerResponse::Failure { id: i, message: m, dir: d } => {
            &&& i == id
            &&& m@ == message
            &&& d@ == dir
        },
        _ => false,
    }
}

/// The response to a listing request, given how reading the directory went:
/// the entries with their count, or the error with the directory it is about.
pub fn handle_filer_message(msg: Message, listing: Result<Vec<String>, String>) -> (r: FilerResponse)
    ensures
        match listing {
            Ok(entries) => is_listing(r, msg.id, entries@, msg.cwd@),
            Err(message) => is_failure(r, msg.id, message@, msg.cwd@),
        },
{
    match listing {
        Ok(entries) => {
            let total = entries.len();
            FilerResponse::Listing { id: msg.id, entries, dir: msg.cwd, total }
        },
        Err(message) => FilerResponse::Failure { id: msg.id, message, dir: msg.cwd },
    }
}

/// The response when no preview could be made for `path`.
pub fn preview_error(msg_id: u64, path: String, message: String) -> (r: FilerResponse)
    ensures
        is_failure(r, msg_id, message@, path@),
{
    FilerResponse::Failure { id: msg_id, message, dir: path }
}

/// Lines of preview for a move: the provider's own size, or half the
/// preview window, whichever is larger.
pub open spec fn preview_size_of(context: SessionContext) -> usize {
    let half = context.preview_winheight / 2;
    if context.provider_preview_size >= half {
        context.provider_preview_size
    } else {
        half
    }
}

pub fn preview_size(context: &SessionContext) -> (r: usize)
    ensures
        r == preview_size_of(*context),
{
    let half = context.preview_winheight / 2;
    if context.provider_preview_size >= half {
        context.provider_preview_size
    } else {
        half
    }
}

/// The entry a displayed line stands for: with icons enabled, the line
/// without its leading icon and the space after it.
pub open spec fn shown_name(line: Seq<char>, enable_icon: bool) -> Seq<char> {
    if enable_icon && line.len() >= 2 {
        line.skip(2)
    } else {
        line
    }
}

pub fn strip_icon(line: &str, enable_icon: bool) -> (r: String)
    ensures
        r@ == shown_name(line@, enable_icon),
{
    let n = line.unicode_len();
    if enable_icon && n >= 2 {
        let rest = line.substring_char(2, n);
        assert(rest@ =~= line@.skip(2));
        rest.to_owned()
    } else {
        line.to_owned()
    }
}

/// Removing the icon from an entry shown with a one-glyph icon gives the
/// entry as shown without icons.
pub proof fn lemma_strip_icon_inverts_display(p: PathInfo)
    requires
        p.icon@.len() == 1,
    ensures
        shown_name(display_view(p, true), true) == display_view(p, false),
{
    assert(display_view(p, true).skip(2) =~= display_view(p, false));
}

/// What a file browser session does next.
pub enum FilerAction {
    /// Show a preview of the entry `curline` under `cwd`, `size` lines long.
    Preview { msg_id: u64, cwd: String, curline: String, size: usize },
    /// List the directory that the request names.
    List(Message),
}

/// Handles the requests of a file browser session.
#[derive(Clone, Copy)]
pub struct FilerMessageHandler;

impl FilerMessageHandler {
    /// A move asks for a preview of the entry on the highlighted line; any
    /// other request asks for a listing.
    pub fn handle(&self, msg: RpcMessage, context: &SessionContext) -> (r: FilerAction)
        ensures
            match msg {
                RpcMessage::OnMove(m) => match r {
                    FilerAction::Preview { msg_id, cwd, curline, size } => {
                        &&& msg_id == m.id
                        &&& cwd == m.cwd
                        &&& curline@ == shown_name(m.curline@, context.enable_icon)
                        &&& size == preview_size_of(*context)
                    },
                    FilerAction::List(_) => false,
                },
                RpcMessage::OnTyped(m) => r == FilerAction::List(m),
            },
    {
        match msg {
            RpcMessage::OnMove(m) => {
                let size = preview_size(context);
                let curline = strip_icon(m.curline.as_str(), context.enable_icon);
                FilerAction::Preview { msg_id: m.id, cwd: m.cwd, curline, size }
            },
            RpcMessage::OnTyped(m) => FilerAction::List(m),
        }
    }
}

/// Starts file browser sessions.
#[derive(Clone, Copy)]
pub struct FilerSession;

impl FilerSession {
    /// The first thing a new session does: list the directory of the
    /// message that opened it.
    pub fn on_init(&self, msg: Message) -> (r: FilerAction)
        ensures
            r == FilerAction::List(msg),
    {
        FilerAction::List(msg)
    }
}

} // verus!
