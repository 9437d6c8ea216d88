//! The room-file codec: parsing the configuration header and the message
//! log tail of a room file, and serializing a committed message block.
//!
//! A room file holds configuration lines (path segments separated by the
//! escape character `\`) up to a line consisting of a single `.`, then the
//! message log: blocks of content lines each closed by one delimiter line
//! `\sender\time\id\resume`. Content lines must not begin with the escape
//! character: the parser would take such a line for a delimiter. That
//! ambiguity is a documented constraint of the format, kept as it is.
use vstd::prelude::*;

use crate::config::Node;
use crate::config::spec_index_of;
use crate::config::spec_populate;
use crate::num::dec_str;
use crate::num::is_u64_numeral;
use crate::num::numeral_val;
use crate::text::normalize_crlf;
use crate::text::split_sep;
use crate::text::trim_end_spec;

verus! {

/// A parsed room file.
#[derive(Debug)]
pub struct Room {
    pub room_name: String,
    pub self_name: String,
    pub server_handle: String,
    pub self_message_lines: Vec<String>,
    pub last_message_id: Option<u64>,
    pub ends_with_newline: bool,
}

/// The mathematical content of a parsed room file.
pub struct RoomView {
    pub room_name: Seq<char>,
    pub self_name: Seq<char>,
    pub server_handle: Seq<char>,
    pub self_message_lines: Seq<Seq<char>>,
    pub last_message_id: Option<u64>,
    pub ends_with_newline: bool,
}

impl View for Room {
    type V = RoomView;

    open spec fn view(&self) -> RoomView {
        RoomView {
            room_name: self.room_name@,
            self_name: self.self_name@,
            server_handle: self.server_handle@,
            self_message_lines: self.self_message_lines.deep_view(),
            last_message_id: self.last_message_id,
            ends_with_newline: self.ends_with_newline,
        }
    }
}

/// Why a room file was rejected.
#[derive(Clone, Copy, Debug, PartialEq, Eq, Structural)]
pub enum RoomError {
    /// No line of a single `.` closes the configuration block.
    MissingTerminator,
    /// The setting `room name` is absent or does not resolve to one value.
    MissingRoomName,
    /// The setting `self name` is absent or does not resolve to one value.
    MissingSelfName,
    /// The setting `server handle` is absent or does not resolve to one value.
    MissingServerHandle,
    /// The last delimiter line has fewer than four fields, or its
    /// resume-point field is not an unsigned integer fitting 64 bits.
    MalformedDelimiter,
}

/// The lines of a room file: CRLF endings normalized, then split on LF.
pub open spec fn room_lines(text: Seq<char>) -> Seq<Seq<char>> {
    split_sep(normalize_crlf(text), '\n')
}

/// The index of the first line whose trimmed content is a single dot,
/// which closes the configuration block.
pub open spec fn term_ix(lines: Seq<Seq<char>>) -> Option<int>
    decreases lines.len(),
{
    if lines.len() == 0 {
        None
    } else if trim_end_spec(lines[0]) == seq!['.'] {
        Some(0)
    } else {
        match term_ix(lines.drop_first()) {
            Some(i) => Some(i + 1),
            None => None,
        }
    }
}

/// The configuration read from the first `k` lines: each line trimmed,
/// empty lines skipped, the rest split on the escape character and fed
/// into the configuration trie.
pub open spec fn config_al(
    lines: Seq<Seq<char>>,
    k: int,
) -> Seq<(Seq<char>, Seq<Seq<char>>)>
    decreases k,
{
    if k <= 0 {
        Seq::empty()
    } else {
        let prev = config_al(lines, k - 1);
        let l = trim_end_spec(lines[k - 1]);
        if l.len() == 0 {
            prev
        } else {
            spec_populate(prev, split_sep(l, '\\'))
        }
    }
}

/// The one value a setting resolves to, if it has exactly one.
pub open spec fn resolve(
    al: Seq<(Seq<char>, Seq<Seq<char>>)>,
    key: Seq<char>,
) -> Option<Seq<char>> {
    match spec_index_of(al, key) {
        Some(i) => {
            if al[i].1.len() == 1 {
                Some(al[i].1[0])
            } else {
                None
            }
        },
        None => None,
    }
}

/// Whether a line is a delimiter line: it begins with the escape character.
pub open spec fn is_delim(l: Seq<char>) -> bool {
    l.len() >= 1 && l[0] == '\\'
}

/// Scan the log tail backward. Trailing empty lines before any staged
/// content record that the file ended with a blank line; the first
/// delimiter line stops the scan; everything else is staged content.
/// Returns the staged lines in file order, the blank-line sentinel, and
/// the delimiter line found, if any.
pub open spec fn scan_tail(
    lines: Seq<Seq<char>>,
    staged: Seq<Seq<char>>,
    blank: bool,
) -> (Seq<Seq<char>>, bool, Option<Seq<char>>)
    decreases lines.len(),
{
    if lines.len() == 0 {
        (staged, blank, None)
    } else {
        let l = lines.last();
        if l.len() == 0 && staged.len() == 0 {
            scan_tail(lines.drop_last(), staged, true)
        } else if is_delim(l) {
            (staged, blank, Some(l))
        } else {
            scan_tail(lines.drop_last(), seq![l] + staged, blank)
        }
    }
}

/// The four escape-separated fields of a delimiter line, after the
/// leading escape character: sender, display time, message id, resume id.
pub open spec fn delim_fields(l: Seq<char>) -> Seq<Seq<char>> {
    split_sep(l.drop_first(), '\\')
}

/// The resume-point id a delimiter line records, if the line is well
/// formed: at least four fields, the fourth an unsigned 64-bit numeral.
pub open spec fn delim_resume(l: Seq<char>) -> Option<u64> {
    let parts = delim_fields(l);
    if parts.len() >= 4 && is_u64_numeral(parts[3]) {
        Some(numeral_val(parts[3]) as u64)
    } else {
        None
    }
}

/// What parsing a room file yields, over the whole text.
pub open spec fn parse_room_spec(text: Seq<char>) -> Result<RoomView, RoomError> {
    let lines = room_lines(text);
    match term_ix(lines) {
        None => Err(RoomError::MissingTerminator),
        Some(ti) => {
            let al = config_al(lines, ti);
            let (staged, blank, delim) = scan_tail(
                lines.skip(ti + 1),
                Seq::empty(),
                false,
            );
            if delim is Some && delim_resume(delim.unwrap()) is None {
                Err(RoomError::MalformedDelimiter)
            } else if resolve(al, "room name"@) is None {
                Err(RoomError::MissingRoomName)
            } else if resolve(al, "self name"@) is None {
                Err(RoomError::MissingSelfName)
            } else if resolve(al, "server handle"@) is None {
                Err(RoomError::MissingServerHandle)
            } else {
                Ok(
                    RoomView {
                        room_name: resolve(al, "room name"@).unwrap(),
                        self_name: resolve(al, "self name"@).unwrap(),
                        server_handle: resolve(al, "server handle"@).unwrap(),
                        self_message_lines: staged,
                        last_message_id: match delim {
                            Some(l) => delim_resume(l),
                            None => None,
                        },
                        ends_with_newline: blank,
                    },
                )
            }
        },
    }
}

/// `term_ix` finds exactly the least index of a terminator line.
proof fn lemma_term_ix(lines: Seq<Seq<char>>, k: int)
    requires
        0 <= k <= lines.len(),
        forall|j: int| 0 <= j < k ==> trim_end_spec(#[trigger] lines[j]) != seq!['.'],
        k < lines.len() ==> trim_end_spec(lines[k]) == seq!['.'],
    ensures
        k == lines.len() ==> term_ix(lines) is None,
        k < lines.len() ==> term_ix(lines) == Some(k),
    decreases lines.len(),
{
    if lines.len() > 0 && trim_end_spec(lines[0]) != seq!['.'] {
        assert(forall|j: int|
            0 <= j < k - 1 ==> lines.drop_first()[j] == lines[j + 1]);
        lemma_term_ix(lines.drop_first(), k - 1);
    }
}

/// Copy a character vector.
fn clone_chars(v: &Vec<char>) -> (r: Vec<char>)
    ensures
        r@ == v@,
{
    let mut r: Vec<char> = Vec::new();
    let mut i: usize = 0;
    while i < v.len()
        invariant
            i <= v.len(),
            r@ == v@.take(i as int),
        decreases v.len() - i,
    {
        r.push(v[i]);
        assert(r@ =~= v@.take(i + 1));
        i = i + 1;
    }
    assert(r@ =~= v@);
    r
}

/// Everything after the first character.
fn drop_first_chars(v: &Vec<char>) -> (r: Vec<char>)
    requires
        v@.len() >= 1,
    ensures
        r@ == v@.drop_first(),
{
    let mut r: Vec<char> = Vec::new();
    let mut i: usize = 1;
    while i < v.len()
        invariant
            1 <= i <= v.len(),
            r@ == v@.subrange(1, i as int),
        decreases v.len() - i,
    {
        r.push(v[i]);
        assert(r@ =~= v@.subrange(1, i + 1));
        i = i + 1;
    }
    assert(r@ =~= v@.drop_first());
    r
}

/// Removing an entry of an association list with distinct keys leaves the
/// resolution of every other key as it was, and the keys distinct.
proof fn lemma_resolve_remove(
    al: Seq<(Seq<char>, Seq<Seq<char>>)>,
    i: int,
    key: Seq<char>,
)
    requires
        0 <= i < al.len(),
        al[i].0 != key,
        forall|x: int, y: int| 0 <= x < y < al.len() ==> al[x].0 != al[y].0,
    ensures
        resolve(al.remove(i), key) == resolve(al, key),
        forall|x: int, y: int|
            0 <= x < y < al.remove(i).len() ==> al.remove(i)[x].0 != al.remove(i)[y].0,
{
    let rem = al.remove(i);
    assert(forall|x: int| 0 <= x < i ==> rem[x] == al[x]);
    assert(forall|x: int| i <= x < rem.len() ==> rem[x] == al[x + 1]);
    match spec_index_of(al, key) {
        Some(j) => {
            assert(al[j].0 == key);
            let j2: int = if j < i {
                j
            } else {
                j - 1
            };
            assert(rem[j2].0 == key);
            assert(0 <= j2 < rem.len() && rem[j2].0 == key);
            let w = choose|w: int| 0 <= w < rem.len() && #[trigger] rem[w].0 == key;
            if w != j2 {
                let wo: int = if w < i {
                    w
                } else {
                    w + 1
                };
                assert(al[wo].0 == key);
                assert(al[j].0 == al[wo].0);
                assert(wo == j);
                assert(false);
            }
            assert(spec_index_of(rem, key) == Some(j2));
            assert(rem[j2].1 == al[j].1);
        },
        None => {
            assert(forall|x: int| 0 <= x < al.len() ==> al[x].0 != key);
            assert(forall|x: int| 0 <= x < rem.len() ==> rem[x].0 != key);
        },
    }
}

/// Parse a room file: the configuration block up to the dot line, then
/// the log tail scanned backward for staged content, the blank-line
/// sentinel and the resume point of the last committed block.
pub fn parse_room(text: &str) -> (r: Result<Room, RoomError>)
    ensures
        match (r, parse_room_spec(text@)) {
            (Ok(room), Ok(v)) => room@ == v,
            (Err(e), Err(se)) => e == se,
            _ => false,
        },
{
    let chars = crate::text::str_chars(text);
    let norm = crate::text::normalize_newlines(&chars);
    let lines = crate::text::split_on(&norm, '\n');
    let ghost ls = lines.deep_view();
    assert(ls == room_lines(text@));

    let mut dot: Vec<char> = Vec::new();
    dot.push('.');
    assert(dot@ =~= seq!['.']);

    // Configuration block: populate the trie until the terminator line.
    let mut node = Node::new();
    let mut i: usize = 0;
    let mut found_term = false;
    while i < lines.len() && !found_term
        invariant
            i <= lines.len(),
            ls == lines.deep_view(),
            dot@ == seq!['.'],
            node.wf(),
            !found_term ==> node@ == config_al(ls, i as int),
            !found_term ==> forall|j: int|
                0 <= j < i ==> trim_end_spec(#[trigger] ls[j]) != seq!['.'],
            found_term ==> i >= 1 && term_ix(ls) == Some(i - 1)
                && node@ == config_al(ls, i - 1),
        decreases lines.len() - i,
    {
        proof {
            crate::text::lemma_deep_index(&lines, i as int);
        }
        let t = crate::text::trim_end(&lines[i]);
        if crate::text::chars_eq(&t, &dot) {
            proof {
                lemma_term_ix(ls, i as int);
            }
            found_term = true;
        } else if t.len() > 0 {
            let parts = crate::text::split_on(&t, '\\');
            node.populate(&parts);
        }
        i = i + 1;
    }
    if !found_term {
        proof {
            lemma_term_ix(ls, ls.len() as int);
        }
        return Err(RoomError::MissingTerminator);
    }
    let ti = i - 1;
    let ghost gal = config_al(ls, ti as int);

    // Log tail: scan backward from the end of the file.
    let ghost tail = ls.skip(ti + 1);
    let mut staged: Vec<Vec<char>> = Vec::new();
    let mut blank = false;
    let mut last_message_id: Option<u64> = None;
    let mut done = false;
    let mut j: usize = lines.len();
    assert(tail.take(j - ti - 1) =~= tail);
    assert(staged.deep_view() =~= Seq::<Seq<char>>::empty());
    let ghost full_scan = scan_tail(tail, Seq::empty(), false);
    while j > ti + 1 && !done
        invariant
            ti + 1 <= j <= lines.len(),
            ti < lines.len(),
            ls == lines.deep_view(),
            ls == room_lines(text@),
            term_ix(ls) == Some(ti as int),
            tail == ls.skip(ti + 1),
            !done ==> last_message_id is None,
            !done ==> full_scan == scan_tail(
                tail.take(j - ti - 1),
                staged.deep_view(),
                blank,
            ),
            done ==> {
                &&& full_scan.0 == staged.deep_view()
                &&& full_scan.1 == blank
                &&& full_scan.2 is Some
                &&& last_message_id is Some
                &&& delim_resume(full_scan.2.unwrap()) == last_message_id
            },
            full_scan == scan_tail(tail, Seq::empty(), false),
        decreases j,
    {
        j = j - 1;
        proof {
            crate::text::lemma_deep_index(&lines, j as int);
            assert(tail.take(j - ti) =~= tail.take(j + 1 - ti - 1));
            assert(tail.take(j - ti).last() == ls[j as int]);
            assert(tail.take(j - ti).drop_last() =~= tail.take(j - ti - 1));
        }
        let l = &lines[j];
        if l.len() == 0 && staged.len() == 0 {
            blank = true;
            proof {
                assert(staged.deep_view() =~= Seq::<Seq<char>>::empty());
            }
        } else if l.len() >= 1 && l[0] == '\\' {
            // The last committed block's delimiter line.
            assert(full_scan == (staged.deep_view(), blank, Some(ls[j as int])));
            let data = drop_first_chars(l);
            let parts = crate::text::split_on(&data, '\\');
            assert(parts.deep_view() == delim_fields(ls[j as int]));
            if parts.len() < 4 {
                return Err(RoomError::MalformedDelimiter);
            }
            proof {
                crate::text::lemma_deep_index(&parts, 3);
            }
            match crate::num::parse_u64(&parts[3]) {
                Some(v) => {
                    last_message_id = Some(v);
                    done = true;
                },
                None => {
                    return Err(RoomError::MalformedDelimiter);
                },
            }
        } else {
            let ghost before = staged.deep_view();
            staged.insert(0, clone_chars(l));
            proof {
                assert(staged.deep_view() =~~= seq![ls[j as int]] + before);
            }
        }
    }
    proof {
        if !done {
            assert(tail.take(0) =~= Seq::<Seq<char>>::empty());
            assert(full_scan == (staged.deep_view(), blank, None::<Seq<char>>));
        }
    }

    // Required settings, each of which must resolve to exactly one value.
    proof {
        reveal_strlit("room name");
        reveal_strlit("self name");
        reveal_strlit("server handle");
        assert("room name"@[0] == 'r' && "self name"@[0] == 's');
        assert("room name"@.len() == 9 && "server handle"@.len() == 13);
        assert("room name"@ != "self name"@);
        assert("room name"@ != "server handle"@);
        assert("self name"@ != "server handle"@);
    }
    assert(node@ == gal && node.wf());
    let room_name = match node.pop("room name") {
        Some(n) => {
            proof {
                let i0 = spec_index_of(gal, "room name"@).unwrap();
                assert(gal[i0].0 == "room name"@);
                lemma_resolve_remove(gal, i0, "self name"@);
                lemma_resolve_remove(gal, i0, "server handle"@);
            }
            match n.one() {
                Some(s) => s,
                None => {
                    return Err(RoomError::MissingRoomName);
                },
            }
        },
        None => {
            return Err(RoomError::MissingRoomName);
        },
    };
    let ghost al1 = node@;
    assert(resolve(al1, "self name"@) == resolve(gal, "self name"@));
    assert(resolve(al1, "server handle"@) == resolve(gal, "server handle"@));
    let self_name = match node.pop("self name") {
        Some(n) => {
            proof {
                let i1 = spec_index_of(al1, "self name"@).unwrap();
                assert(al1[i1].0 == "self name"@);
                lemma_resolve_remove(al1, i1, "server handle"@);
            }
            match n.one() {
                Some(s) => s,
                None => {
                    return Err(RoomError::MissingSelfName);
                },
            }
        },
        None => {
            return Err(RoomError::MissingSelfName);
        },
    };
    let ghost al2 = node@;
    assert(resolve(al2, "server handle"@) == resolve(gal, "server handle"@));
    let server_handle = match node.pop("server handle") {
        Some(n) => match n.one() {
            Some(s) => s,
            None => {
                return Err(RoomError::MissingServerHandle);
            },
        },
        None => {
            return Err(RoomError::MissingServerHandle);
        },
    };
    let mut self_message_lines: Vec<String> = Vec::new();
    let mut k: usize = 0;
    while k < staged.len()
        invariant
            k <= staged.len(),
            self_message_lines.deep_view() =~= staged.deep_view().take(k as int),
        decreases staged.len() - k,
    {
        proof {
            crate::text::lemma_deep_index(&staged, k as int);
        }
        let ghost prev = self_message_lines.deep_view();
        self_message_lines.push(crate::text::chars_to_string(&staged[k]));
        proof {
            assert(self_message_lines.deep_view()
                =~~= prev.push(staged.deep_view()[k as int]));
            assert(self_message_lines.deep_view()
                =~~= staged.deep_view().take(k + 1));
        }
        k = k + 1;
    }
    assert(self_message_lines.deep_view() =~~= staged.deep_view());
    Ok(
        Room {
            room_name,
            self_name,
            server_handle,
            self_message_lines,
            last_message_id,
            ends_with_newline: blank,
        },
    )
}


/// The delimiter line of a committed block, with its trailing newline:
/// the four escape-joined fields sender, display time, message id and
/// resume-point id.
pub open spec fn delim_line(
    sender: Seq<char>,
    time: Seq<char>,
    id: u64,
    resume: u64,
) -> Seq<char> {
    seq!['\\'] + sender + seq!['\\'] + time + seq!['\\'] + dec_str(id as nat)
        + seq!['\\'] + dec_str(resume as nat) + seq!['\n']
}

/// A serialized message block: each content line followed by a newline,
/// then the delimiter line.
pub open spec fn block_text(
    lines: Seq<Seq<char>>,
    sender: Seq<char>,
    time: Seq<char>,
    id: u64,
    resume: u64,
) -> Seq<char>
    decreases lines.len(),
{
    if lines.len() == 0 {
        delim_line(sender, time, id, resume)
    } else {
        lines[0] + seq!['\n'] + block_text(lines.drop_first(), sender, time, id, resume)
    }
}

/// Append the characters of `s` to `out`.
pub fn push_str_chars(out: &mut Vec<char>, s: &str)
    ensures
        final(out)@ == old(out)@ + s@,
{
    let cs = crate::text::str_chars(s);
    let mut i: usize = 0;
    while i < cs.len()
        invariant
            i <= cs.len(),
            cs@ == s@,
            out@ == old(out)@ + s@.take(i as int),
        decreases cs.len() - i,
    {
        out.push(cs[i]);
        assert(out@ =~= old(out)@ + s@.take(i + 1));
        i = i + 1;
    }
    assert(out@ =~= old(out)@ + s@);
}

/// Append a character vector to `out`.
pub fn push_chars_vec(out: &mut Vec<char>, cs: &Vec<char>)
    ensures
        final(out)@ == old(out)@ + cs@,
{
    let mut i: usize = 0;
    while i < cs.len()
        invariant
            i <= cs.len(),
            out@ == old(out)@ + cs@.take(i as int),
        decreases cs.len() - i,
    {
        out.push(cs[i]);
        assert(out@ =~= old(out)@ + cs@.take(i + 1));
        i = i + 1;
    }
    assert(out@ =~= old(out)@ + cs@);
}

/// Serialize one committed message block: the content lines verbatim,
/// each closed by a newline, then the delimiter line carrying the sender,
/// the rendered send time, the message id and the resume-point id.
/// Content is not escaped: a content line beginning with the escape
/// character is a documented limitation of the format.
pub fn render_block(
    lines: &Vec<String>,
    sender: &str,
    time: &str,
    id: u64,
    resume: u64,
) -> (r: String)
    ensures
        r@ == block_text(lines.deep_view(), sender@, time@, id, resume),
{
    let ghost ldv = lines.deep_view();
    let mut out: Vec<char> = Vec::new();
    let mut i: usize = 0;
    proof {
        assert(ldv.skip(0) =~~= ldv);
        assert(out@ + block_text(ldv, sender@, time@, id, resume)
            =~= block_text(ldv, sender@, time@, id, resume));
    }
    while i < lines.len()
        invariant
            i <= lines.len(),
            ldv == lines.deep_view(),
            block_text(ldv, sender@, time@, id, resume)
                == out@ + block_text(ldv.skip(i as int), sender@, time@, id, resume),
        decreases lines.len() - i,
    {
        proof {
            let rest = ldv.skip(i as int);
            assert(rest[0] == ldv[i as int]);
            assert(rest.drop_first() =~~= ldv.skip(i + 1));
            crate::text::lemma_deep_index_str(lines, i as int);
        }
        push_str_chars(&mut out, lines[i].as_str());
        out.push('\n');
        proof {
            let rest = ldv.skip(i as int);
            assert(block_text(rest, sender@, time@, id, resume)
                == rest[0] + seq!['\n']
                    + block_text(rest.drop_first(), sender@, time@, id, resume));
            assert(block_text(ldv, sender@, time@, id, resume)
                =~= out@ + block_text(ldv.skip(i + 1), sender@, time@, id, resume));
        }
        i = i + 1;
    }
    proof {
        assert(ldv.skip(ldv.len() as int) =~= Seq::<Seq<char>>::empty());
    }
    out.push('\\');
    push_str_chars(&mut out, sender);
    out.push('\\');
    push_str_chars(&mut out, time);
    out.push('\\');
    let id_digits = crate::num::u64_to_dec(id);
    push_chars_vec(&mut out, &id_digits);
    out.push('\\');
    let resume_digits = crate::num::u64_to_dec(resume);
    push_chars_vec(&mut out, &resume_digits);
    out.push('\n');
    proof {
        assert(out@ =~= block_text(ldv, sender@, time@, id, resume));
    }
    crate::text::chars_to_string(&out)
}


/// A field is safe to stand in a delimiter line: no escape character, no
/// line break, and no CR that normalization would touch.
pub open spec fn field_wf(t: Seq<char>) -> bool {
    forall|i: int| 0 <= i < t.len() ==> t[i] != '\\' && t[i] != '\n' && t[i] != '\r'
}

/// A decimal numeral is a safe delimiter field.
proof fn lemma_dec_str_wf(n: nat)
    ensures
        field_wf(dec_str(n)),
{
    crate::num::lemma_dec_str_val(n);
    assert forall|i: int| 0 <= i < dec_str(n).len() implies dec_str(n)[i] != '\\'
        && dec_str(n)[i] != '\n' && dec_str(n)[i] != '\r' by {
        assert(crate::num::is_digit(dec_str(n)[i]));
    }
}

/// The lines of one serialized block: the content lines, the delimiter
/// line, and the empty piece after the final newline.
proof fn lemma_block_lines(
    lines: Seq<Seq<char>>,
    sender: Seq<char>,
    time: Seq<char>,
    id: u64,
    resume: u64,
)
    requires
        forall|i: int, j: int|
            0 <= i < lines.len() && 0 <= j < lines[i].len() ==> #[trigger] lines[i][j]
                != '\n',
        field_wf(sender),
        field_wf(time),
    ensures
        split_sep(block_text(lines, sender, time, id, resume), '\n') == lines + seq![
            delim_line(sender, time, id, resume).drop_last(),
            Seq::<char>::empty(),
        ],
    decreases lines.len(),
{
    let dl = delim_line(sender, time, id, resume).drop_last();
    if lines.len() == 0 {
        lemma_dec_str_wf(id as nat);
        lemma_dec_str_wf(resume as nat);
        assert(delim_line(sender, time, id, resume).last() == '\n');
        assert(forall|j: int| 0 <= j < dl.len() ==> dl[j] != '\n');
        assert(block_text(lines, sender, time, id, resume) =~= dl + seq!['\n']
            + Seq::<char>::empty());
        crate::text::lemma_split_prefix(dl, Seq::empty(), '\n');
        assert(split_sep(block_text(lines, sender, time, id, resume), '\n') =~~= lines
            + seq![dl, Seq::<char>::empty()]);
    } else {
        assert(forall|i: int|
            0 <= i < lines.drop_first().len() ==> lines.drop_first()[i] == lines[i + 1]);
        lemma_block_lines(lines.drop_first(), sender, time, id, resume);
        assert(forall|j: int| 0 <= j < lines[0].len() ==> lines[0][j] != '\n');
        crate::text::lemma_split_prefix(
            lines[0],
            block_text(lines.drop_first(), sender, time, id, resume),
            '\n',
        );
        assert(block_text(lines, sender, time, id, resume) == lines[0] + seq!['\n']
            + block_text(lines.drop_first(), sender, time, id, resume));
        assert(split_sep(block_text(lines, sender, time, id, resume), '\n') =~~= lines
            + seq![dl, Seq::<char>::empty()]);
    }
}

/// Round trip of one committed block. Serializing a block and re-parsing
/// the room file tail finds exactly that block: the scan stops at its
/// delimiter with no staged content and the blank-line sentinel set, the
/// delimiter's four fields are the sender, the rendered time and the two
/// rendered ids, and the recorded resume point reads back as `resume`.
/// The block's own lines stand right before the delimiter line.
pub proof fn lemma_block_round_trip(
    text0: Seq<char>,
    lines: Seq<Seq<char>>,
    sender: Seq<char>,
    time: Seq<char>,
    id: u64,
    resume: u64,
)
    requires
        text0.len() == 0 || text0.last() == '\n',
        forall|i: int| 0 <= i < text0.len() ==> text0[i] != '\r',
        forall|i: int| 0 <= i < lines.len() ==> field_wf(#[trigger] lines[i]),
        field_wf(sender),
        field_wf(time),
    ensures
        ({
            let t = text0 + block_text(lines, sender, time, id, resume);
            let dl = delim_line(sender, time, id, resume).drop_last();
            let ls = room_lines(t);
            &&& ls == split_sep(text0, '\n').drop_last() + lines + seq![
                dl,
                Seq::<char>::empty(),
            ]
            &&& scan_tail(ls, Seq::empty(), false) == (
                Seq::<Seq<char>>::empty(),
                true,
                Some(dl),
            )
            &&& delim_fields(dl) == seq![
                sender,
                time,
                dec_str(id as nat),
                dec_str(resume as nat),
            ]
            &&& delim_resume(dl) == Some(resume)
        }),
{
    let bt = block_text(lines, sender, time, id, resume);
    let t = text0 + bt;
    let dl = delim_line(sender, time, id, resume).drop_last();
    lemma_dec_str_wf(id as nat);
    lemma_dec_str_wf(resume as nat);
    crate::num::lemma_dec_str_val(id as nat);
    crate::num::lemma_dec_str_val(resume as nat);

    // The appended text has no CR, so normalization leaves it unchanged.
    assert forall|i: int| 0 <= i < bt.len() implies bt[i] != '\r' by {
        lemma_block_text_no_cr(lines, sender, time, id, resume, i);
    }
    assert(forall|i: int| 0 <= i < t.len() ==> t[i] != '\r');
    crate::text::lemma_normalize_id(t);

    // Line decomposition.
    lemma_block_lines(lines, sender, time, id, resume);
    if text0.len() == 0 {
        assert(split_sep(text0, '\n') == seq![Seq::<char>::empty()]);
        assert(split_sep(text0, '\n').drop_last() =~~= Seq::<Seq<char>>::empty());
        assert(t =~= bt);
        assert(room_lines(t) =~~= split_sep(text0, '\n').drop_last() + lines + seq![
            dl,
            Seq::<char>::empty(),
        ]);
    } else {
        crate::text::lemma_split_concat(text0, bt, '\n');
        assert(room_lines(t) =~~= split_sep(text0, '\n').drop_last() + lines + seq![
            dl,
            Seq::<char>::empty(),
        ]);
    }
    let ls = room_lines(t);

    // The backward scan: the trailing empty line sets the sentinel, the
    // delimiter line stops the scan at once.
    assert(ls.last() =~= Seq::<char>::empty());
    assert(ls.drop_last().last() == dl);
    assert(dl[0] == '\\');
    assert(is_delim(dl));
    assert(scan_tail(ls, Seq::empty(), false) == scan_tail(
        ls.drop_last(),
        Seq::empty(),
        true,
    ));
    assert(scan_tail(ls, Seq::empty(), false) == (
        Seq::<Seq<char>>::empty(),
        true,
        Some(dl),
    ));

    // Field recovery: the delimiter line splits back into its four fields.
    let tail1 = time + seq!['\\'] + dec_str(id as nat) + seq!['\\'] + dec_str(
        resume as nat,
    );
    assert(dl.drop_first() =~= sender + seq!['\\'] + tail1);
    crate::text::lemma_split_prefix(sender, tail1, '\\');
    let tail2 = dec_str(id as nat) + seq!['\\'] + dec_str(resume as nat);
    assert(tail1 =~= time + seq!['\\'] + tail2);
    crate::text::lemma_split_prefix(time, tail2, '\\');
    crate::text::lemma_split_prefix(dec_str(id as nat), dec_str(resume as nat), '\\');
    crate::text::lemma_split_no_sep(dec_str(resume as nat), '\\');
    assert(delim_fields(dl) =~~= seq![
        sender,
        time,
        dec_str(id as nat),
        dec_str(resume as nat),
    ]);
    assert(delim_fields(dl)[3] == dec_str(resume as nat));
}

/// No character of a serialized block is a CR, given CR-free inputs.
proof fn lemma_block_text_no_cr(
    lines: Seq<Seq<char>>,
    sender: Seq<char>,
    time: Seq<char>,
    id: u64,
    resume: u64,
    i: int,
)
    requires
        forall|k: int| 0 <= k < lines.len() ==> field_wf(#[trigger] lines[k]),
        field_wf(sender),
        field_wf(time),
        0 <= i < block_text(lines, sender, time, id, resume).len(),
    ensures
        block_text(lines, sender, time, id, resume)[i] != '\r',
    decreases lines.len(),
{
    lemma_dec_str_wf(id as nat);
    lemma_dec_str_wf(resume as nat);
    if lines.len() == 0 {
    } else {
        assert(forall|k: int|
            0 <= k < lines.drop_first().len() ==> lines.drop_first()[k] == lines[k + 1]);
        let head = lines[0] + seq!['\n'];
        if i >= head.len() {
            lemma_block_text_no_cr(
                lines.drop_first(),
                sender,
                time,
                id,
                resume,
                i - head.len(),
            );
        }
    }
}


/// Field recovery of one delimiter line: splitting it on the escape
/// character yields exactly the sender, the rendered time and the two
/// rendered ids, and the resume field reads back as `resume`.
pub proof fn lemma_delim_fields(sender: Seq<char>, time: Seq<char>, id: u64, resume: u64)
    requires
        field_wf(sender),
        field_wf(time),
    ensures
        delim_fields(delim_line(sender, time, id, resume).drop_last()) == seq![
            sender,
            time,
            dec_str(id as nat),
            dec_str(resume as nat),
        ],
        delim_resume(delim_line(sender, time, id, resume).drop_last()) == Some(resume),
{
    let dl = delim_line(sender, time, id, resume).drop_last();
    lemma_dec_str_wf(id as nat);
    lemma_dec_str_wf(resume as nat);
    crate::num::lemma_dec_str_val(resume as nat);
    let tail1 = time + seq!['\\'] + dec_str(id as nat) + seq!['\\'] + dec_str(
        resume as nat,
    );
    assert(dl.drop_first() =~= sender + seq!['\\'] + tail1);
    crate::text::lemma_split_prefix(sender, tail1, '\\');
    let tail2 = dec_str(id as nat) + seq!['\\'] + dec_str(resume as nat);
    assert(tail1 =~= time + seq!['\\'] + tail2);
    crate::text::lemma_split_prefix(time, tail2, '\\');
    crate::text::lemma_split_prefix(dec_str(id as nat), dec_str(resume as nat), '\\');
    crate::text::lemma_split_no_sep(dec_str(resume as nat), '\\');
    assert(delim_fields(dl) =~~= seq![
        sender,
        time,
        dec_str(id as nat),
        dec_str(resume as nat),
    ]);
    assert(delim_fields(dl)[3] == dec_str(resume as nat));
}


/// Every serialized block ends with its delimiter line's newline.
pub proof fn lemma_block_text_last(
    lines: Seq<Seq<char>>,
    sender: Seq<char>,
    time: Seq<char>,
    id: u64,
    resume: u64,
)
    ensures
        block_text(lines, sender, time, id, resume).len() > 0,
        block_text(lines, sender, time, id, resume).last() == '\n',
    decreases lines.len(),
{
    if lines.len() == 0 {
        assert(delim_line(sender, time, id, resume).last() == '\n');
    } else {
        lemma_block_text_last(lines.drop_first(), sender, time, id, resume);
    }
}

/// No character of a serialized block is a CR, given CR-free fields.
pub proof fn lemma_block_no_cr(
    lines: Seq<Seq<char>>,
    sender: Seq<char>,
    time: Seq<char>,
    id: u64,
    resume: u64,
)
    requires
        forall|k: int| 0 <= k < lines.len() ==> field_wf(#[trigger] lines[k]),
        field_wf(sender),
        field_wf(time),
    ensures
        forall|i: int|
            0 <= i < block_text(lines, sender, time, id, resume).len()
                ==> #[trigger] block_text(lines, sender, time, id, resume)[i] != '\r',
{
    assert forall|i: int|
        0 <= i < block_text(lines, sender, time, id, resume).len() implies #[trigger]
    block_text(lines, sender, time, id, resume)[i] != '\r' by {
        lemma_block_text_no_cr(lines, sender, time, id, resume, i);
    }
}

} // verus!
