//! Import of `Host` blocks from an OpenSSH client configuration file.
use vstd::prelude::*;

use crate::text::{
    chars_of, first_newline, first_ws, is_whitespace, is_ws, lemma_first_newline, lemma_first_ws, parse_u16, parse_u16_range,
    range_contains, trim, trim_end, trim_range, trim_start,
};

verus! {

/// One importable host of an SSH client configuration.
pub struct SshConfigEntry {
    pub alias: String,
    pub hostname: String,
    pub port: u16,
    pub user: Option<String>,
    pub identity_file: Option<String>,
}

/// The value of an [`SshConfigEntry`].
pub struct SshConfigEntryView {
    pub alias: Seq<char>,
    pub hostname: Seq<char>,
    pub port: u16,
    pub user: Option<Seq<char>>,
    pub identity_file: Option<Seq<char>>,
}

/// The view of an optional string.
pub open spec fn opt_str(o: Option<String>) -> Option<Seq<char>> {
    match o {
        Some(s) => Some(s@),
        None => None,
    }
}

impl View for SshConfigEntry {
    type V = SshConfigEntryView;

    open spec fn view(&self) -> SshConfigEntryView {
        SshConfigEntryView {
            alias: self.alias@,
            hostname: self.hostname@,
            port: self.port,
            user: opt_str(self.user),
            identity_file: opt_str(self.identity_file),
        }
    }
}

/// The settings gathered since the last `Host` line.
pub struct HostBlockView {
    pub alias: Option<Seq<char>>,
    pub hostname: Option<Seq<char>>,
    pub port: Option<u16>,
    pub user: Option<Seq<char>>,
    pub identity: Option<Seq<char>>,
}

/// The state of the parser between two lines.
pub struct ParseStateView {
    pub entries: Seq<SshConfigEntryView>,
    pub block: HostBlockView,
}

/// A block with nothing set.
pub open spec fn empty_block() -> HostBlockView {
    HostBlockView { alias: None, hostname: None, port: None, user: None, identity: None }
}

/// Port used when a block names none, or none that parses.
pub const DEFAULT_SSH_PORT: u16 = 22;

/// A `Host` pattern with a wildcard names no single host.
pub open spec fn is_wildcard(alias: Seq<char>) -> bool {
    alias.contains('*') || alias.contains('?')
}

/// `entries` with the finished `block` appended when it names a concrete
/// host and its address.
pub open spec fn flush_block(entries: Seq<SshConfigEntryView>, block: HostBlockView) -> Seq<
    SshConfigEntryView,
> {
    match (block.alias, block.hostname) {
        (Some(a), Some(h)) => if is_wildcard(a) {
            entries
        } else {
            entries.push(
                SshConfigEntryView {
                    alias: a,
                    hostname: h,
                    port: match block.port {
                        Some(p) => p,
                        None => DEFAULT_SSH_PORT,
                    },
                    user: block.user,
                    identity_file: block.identity,
                },
            )
        },
        _ => entries,
    }
}

/// Paths that name the home directory with a leading `~`.
pub open spec fn is_tilde_path(p: Seq<char>) -> bool {
    (p.len() >= 2 && p[0] == '~' && p[1] == '/') || p =~= seq!['~']
}

/// `p` with its leading `~` replaced by `home`, when there is one.
pub open spec fn expand_tilde_spec(p: Seq<char>, home: Option<Seq<char>>) -> Seq<char> {
    if is_tilde_path(p) {
        match home {
            Some(h) => h + p.drop_first(),
            None => p,
        }
    } else {
        p
    }
}

/// `key` equals `keyword` (lower-case ASCII letters) when ASCII letters of
/// `key` are lower-cased.
pub open spec fn is_keyword(key: Seq<char>, keyword: Seq<char>) -> bool {
    key.len() == keyword.len() && forall|i: int|
        0 <= i < key.len() ==> ascii_ci_eq(#[trigger] key[i], keyword[i])
}

/// `c`, lower-cased over ASCII, equals the lower-case letter `l`.
pub open spec fn ascii_ci_eq(c: char, l: char) -> bool {
    c == l || ('a' <= l && l <= 'z' && c as u32 + 32 == l as u32)
}

/// The first word of a trimmed line.
pub open spec fn line_key(t: Seq<char>) -> Seq<char> {
    t.take(first_ws(t) as int)
}

/// What follows the first word of a trimmed line, trimmed.
pub open spec fn line_value(t: Seq<char>) -> Seq<char> {
    let w = first_ws(t) as int;
    if w < t.len() {
        trim(t.skip(w + 1))
    } else {
        Seq::empty()
    }
}

/// The parser state after one line of the file.
pub open spec fn apply_line(st: ParseStateView, line: Seq<char>, home: Option<Seq<char>>) -> ParseStateView {
    let t = trim(line);
    if t.len() == 0 || t[0] == '#' {
        st
    } else {
        let key = line_key(t);
        let val = line_value(t);
        let b = st.block;
        if is_keyword(key, seq!['h', 'o', 's', 't']) {
            ParseStateView {
                entries: flush_block(st.entries, b),
                block: HostBlockView { alias: Some(val), ..empty_block() },
            }
        } else if is_keyword(key, seq!['h', 'o', 's', 't', 'n', 'a', 'm', 'e']) {
            ParseStateView { block: HostBlockView { hostname: Some(val), ..b }, ..st }
        } else if is_keyword(key, seq!['p', 'o', 'r', 't']) {
            ParseStateView { block: HostBlockView { port: parse_u16(val), ..b }, ..st }
        } else if is_keyword(key, seq!['u', 's', 'e', 'r']) {
            ParseStateView { block: HostBlockView { user: Some(val), ..b }, ..st }
        } else if is_keyword(
            key,
            seq!['i', 'd', 'e', 'n', 't', 'i', 't', 'y', 'f', 'i', 'l', 'e'],
        ) {
            ParseStateView {
                block: HostBlockView { identity: Some(expand_tilde_spec(val, home)), ..b },
                ..st
            }
        } else {
            st
        }
    }
}

/// The parser state after every line of `s`, lines ending at `'\n'`.
pub open spec fn apply_lines(st: ParseStateView, s: Seq<char>, home: Option<Seq<char>>) -> ParseStateView
    decreases s.len(),
{
    let k = first_newline(s) as int;
    if k >= s.len() {
        apply_line(st, s, home)
    } else {
        apply_lines(apply_line(st, s.take(k), home), s.skip(k + 1), home)
    }
}

/// The hosts that a configuration text defines, in file order, `~` in
/// identity files resolved against `home`.
pub open spec fn parse_config(text: Seq<char>, home: Option<Seq<char>>) -> Seq<SshConfigEntryView> {
    let st = apply_lines(ParseStateView { entries: Seq::empty(), block: empty_block() }, text, home);
    flush_block(st.entries, st.block)
}

/// Calls `dirs::home_dir` and turns the path into text with
/// `to_string_lossy`. Nothing is claimed of the result: it depends on the
/// environment of the process.
#[verifier::external_body]
fn home_dir_string() -> (home: Option<String>) {
    dirs::home_dir().map(|h| h.to_string_lossy().into_owned())
}

/// `path` with a leading `~` replaced by `home`.
pub fn expand_tilde_with_home(path: &str, home: Option<&str>) -> (r: String)
    ensures
        r@ == expand_tilde_spec(
            path@,
            match home {
                Some(h) => Some(h@),
                None => None,
            },
        ),
{
    let v = chars_of(path);
    let n = v.len();
    let tilde = (n >= 2 && v[0] == '~' && v[1] == '/') || (n == 1 && v[0] == '~');
    if tilde {
        assert(is_tilde_path(path@));
        match home {
            Some(h) => {
                let mut r = h.to_owned();
                r.append(path.substring_char(1, n));
                assert(path@.subrange(1, n as int) =~= path@.drop_first());
                r
            },
            None => path.to_owned(),
        }
    } else {
        assert(!is_tilde_path(path@)) by {
            if path@ =~= seq!['~'] {
                assert(v@[0] == '~');
            }
        }
        path.to_owned()
    }
}

/// `path` with a leading `~` replaced by the user's home directory, when
/// that is known.
pub fn expand_tilde(path: &str) -> (r: String)
    ensures
        !is_tilde_path(path@) ==> r@ == path@,
        is_tilde_path(path@) ==> (r@ == path@ || exists|h: Seq<char>|
            r@ == #[trigger] expand_tilde_spec(path@, Some(h))),
{
    let v = chars_of(path);
    let n = v.len();
    if (n >= 2 && v[0] == '~' && v[1] == '/') || (n == 1 && v[0] == '~') {
        match home_dir_string() {
            Some(h) => {
                let r = expand_tilde_with_home(path, Some(h.as_str()));
                assert(r@ == expand_tilde_spec(path@, Some(h@)));
                r
            },
            None => path.to_owned(),
        }
    } else {
        assert(!is_tilde_path(path@)) by {
            if path@ =~= seq!['~'] {
                assert(v@[0] == '~');
            }
        }
        path.to_owned()
    }
}


spec fn all_concrete(entries: Seq<SshConfigEntryView>) -> bool {
    forall|i: int| 0 <= i < entries.len() ==> !is_wildcard(#[trigger] entries[i].alias)
}

proof fn lemma_apply_lines_concrete(st: ParseStateView, s: Seq<char>, home: Option<Seq<char>>)
    requires
        all_concrete(st.entries),
    ensures
        all_concrete(apply_lines(st, s, home).entries),
    decreases s.len(),
{
    let st1 = apply_line(st, s.take(first_newline(s) as int), home);
    let st2 = apply_line(st, s, home);
    assert(all_concrete(st1.entries)) by {
        assert(all_concrete(flush_block(st.entries, st.block)));
    }
    assert(all_concrete(st2.entries)) by {
        assert(all_concrete(flush_block(st.entries, st.block)));
    }
    let k = first_newline(s) as int;
    if k < s.len() {
        lemma_apply_lines_concrete(st1, s.skip(k + 1), home);
    }
}

/// Hosts given by a wildcard pattern are never imported: no alias of a
/// parsed entry holds `*` or `?`.
pub proof fn law_no_wildcard_hosts(text: Seq<char>, home: Option<Seq<char>>)
    ensures
        forall|i: int|
            0 <= i < parse_config(text, home).len() ==> !is_wildcard(
                #[trigger] parse_config(text, home)[i].alias,
            ),
{
    let init = ParseStateView { entries: Seq::empty(), block: empty_block() };
    lemma_apply_lines_concrete(init, text, home);
    let st = apply_lines(init, text, home);
    assert(all_concrete(flush_block(st.entries, st.block)));
}

/// The lines of `s`, split at `'\n'`.
pub open spec fn lines_of(s: Seq<char>) -> Seq<Seq<char>>
    decreases s.len(),
{
    let k = first_newline(s) as int;
    if k >= s.len() {
        seq![s]
    } else {
        seq![s.take(k)] + lines_of(s.skip(k + 1))
    }
}

/// What a line sets, once its layout is discarded: the index of its
/// keyword (`Host`, `HostName`, `Port`, `User`, `IdentityFile`, any case)
/// and its trimmed value; nothing for a blank line, a comment or an
/// unknown keyword.
pub open spec fn directive(line: Seq<char>) -> Option<(int, Seq<char>)> {
    let t = trim(line);
    if t.len() == 0 || t[0] == '#' {
        None
    } else {
        let key = line_key(t);
        let val = line_value(t);
        if is_keyword(key, seq!['h', 'o', 's', 't']) {
            Some((0, val))
        } else if is_keyword(key, seq!['h', 'o', 's', 't', 'n', 'a', 'm', 'e']) {
            Some((1, val))
        } else if is_keyword(key, seq!['p', 'o', 'r', 't']) {
            Some((2, val))
        } else if is_keyword(key, seq!['u', 's', 'e', 'r']) {
            Some((3, val))
        } else if is_keyword(
            key,
            seq!['i', 'd', 'e', 'n', 't', 'i', 't', 'y', 'f', 'i', 'l', 'e'],
        ) {
            Some((4, val))
        } else {
            None
        }
    }
}

/// The directives of a list of lines, in order.
pub open spec fn directives_of(ls: Seq<Seq<char>>) -> Seq<(int, Seq<char>)>
    decreases ls.len(),
{
    if ls.len() == 0 {
        Seq::empty()
    } else {
        match directive(ls[0]) {
            Some(d) => seq![d] + directives_of(ls.drop_first()),
            None => directives_of(ls.drop_first()),
        }
    }
}

/// The parser state after one directive.
pub open spec fn apply_directive(st: ParseStateView, d: (int, Seq<char>), home: Option<Seq<char>>) -> ParseStateView {
    let b = st.block;
    let val = d.1;
    if d.0 == 0 {
        ParseStateView {
            entries: flush_block(st.entries, b),
            block: HostBlockView { alias: Some(val), ..empty_block() },
        }
    } else if d.0 == 1 {
        ParseStateView { block: HostBlockView { hostname: Some(val), ..b }, ..st }
    } else if d.0 == 2 {
        ParseStateView { block: HostBlockView { port: parse_u16(val), ..b }, ..st }
    } else if d.0 == 3 {
        ParseStateView { block: HostBlockView { user: Some(val), ..b }, ..st }
    } else {
        ParseStateView {
            block: HostBlockView { identity: Some(expand_tilde_spec(val, home)), ..b },
            ..st
        }
    }
}

/// The parser state after a list of directives.
pub open spec fn apply_directives(st: ParseStateView, ds: Seq<(int, Seq<char>)>, home: Option<Seq<char>>) -> ParseStateView
    decreases ds.len(),
{
    if ds.len() == 0 {
        st
    } else {
        apply_directives(apply_directive(st, ds[0], home), ds.drop_first(), home)
    }
}

proof fn lemma_apply_line_directive(st: ParseStateView, line: Seq<char>, home: Option<Seq<char>>)
    ensures
        apply_line(st, line, home) == match directive(line) {
            Some(d) => apply_directive(st, d, home),
            None => st,
        },
{
}

proof fn lemma_apply_lines_directives(st: ParseStateView, s: Seq<char>, home: Option<Seq<char>>)
    ensures
        apply_lines(st, s, home) == apply_directives(st, directives_of(lines_of(s)), home),
    decreases s.len(),
{
    let k = first_newline(s) as int;
    let ls = lines_of(s);
    lemma_apply_line_directive(st, ls[0], home);
    if k >= s.len() {
        assert(ls.drop_first() =~= Seq::<Seq<char>>::empty());
    } else {
        assert(ls[0] == s.take(k));
        assert(ls.drop_first() =~= lines_of(s.skip(k + 1)));
        lemma_apply_lines_directives(apply_line(st, s.take(k), home), s.skip(k + 1), home);
    }
    match directive(ls[0]) {
        Some(d) => {
            let ds = directives_of(ls);
            assert(ds[0] == d);
            assert(ds.drop_first() =~= directives_of(ls.drop_first()));
        },
        None => {},
    }
}

/// Texts whose lines give the same directives give the same hosts: the
/// case of keywords, the white space around and between keyword and value,
/// blank lines, comment lines and lines of unknown keywords do not change
/// what is imported.
pub proof fn law_parse_depends_on_directives_only(
    text: Seq<char>,
    other: Seq<char>,
    home: Option<Seq<char>>,
)
    requires
        directives_of(lines_of(text)) == directives_of(lines_of(other)),
    ensures
        parse_config(text, home) == parse_config(other, home),
{
    let init = ParseStateView { entries: Seq::empty(), block: empty_block() };
    lemma_apply_lines_directives(init, text, home);
    lemma_apply_lines_directives(init, other, home);
}

proof fn lemma_first_newline_concat(x: Seq<char>, y: Seq<char>)
    ensures
        first_newline(x) < x.len() ==> first_newline(x + y) == first_newline(x),
        first_newline(x) >= x.len() ==> first_newline(x + y) == x.len() + first_newline(y),
    decreases x.len(),
{
    if x.len() > 0 {
        assert((x + y).drop_first() =~= x.drop_first() + y);
        assert((x + y)[0] == x[0]);
        lemma_first_newline_concat(x.drop_first(), y);
    } else {
        assert(x + y =~= y);
    }
}

proof fn lemma_first_newline_le(x: Seq<char>)
    ensures
        first_newline(x) <= x.len(),
    decreases x.len(),
{
    if x.len() > 0 {
        lemma_first_newline_le(x.drop_first());
    }
}

proof fn lemma_lines_of_concat(x: Seq<char>, y: Seq<char>)
    ensures
        lines_of(x + seq!['\n'] + y) == lines_of(x) + lines_of(y),
    decreases x.len(),
{
    let s = x + seq!['\n'] + y;
    let k = first_newline(x) as int;
    lemma_first_newline_le(x);
    lemma_first_newline_concat(x, seq!['\n'] + y);
    assert(s =~= x + (seq!['\n'] + y));
    assert(first_newline(seq!['\n'] + y) == 0);
    if k >= x.len() {
        assert(first_newline(s) == x.len());
        assert(s.take(x.len() as int) =~= x);
        assert(s.skip(x.len() as int + 1) =~= y);
        assert(lines_of(x) == seq![x]);
        assert(lines_of(s) =~= lines_of(x) + lines_of(y));
    } else {
        assert(first_newline(s) == k);
        assert(s.take(k) =~= x.take(k));
        assert(s.skip(k + 1) =~= x.skip(k + 1) + seq!['\n'] + y);
        lemma_lines_of_concat(x.skip(k + 1), y);
        assert(lines_of(s) =~= lines_of(x) + lines_of(y));
    }
}

proof fn lemma_directives_concat(a: Seq<Seq<char>>, b: Seq<Seq<char>>)
    ensures
        directives_of(a + b) == directives_of(a) + directives_of(b),
    decreases a.len(),
{
    if a.len() == 0 {
        assert(a + b =~= b);
        assert(directives_of(a) + directives_of(b) =~= directives_of(b));
    } else {
        assert((a + b)[0] == a[0]);
        assert((a + b).drop_first() =~= a.drop_first() + b);
        lemma_directives_concat(a.drop_first(), b);
        match directive(a[0]) {
            Some(d) => {
                assert(directives_of(a + b) =~= directives_of(a) + directives_of(b));
            },
            None => {},
        }
    }
}

/// A line that sets nothing: blank, a comment, or an unknown keyword.
pub open spec fn is_neutral_line(line: Seq<char>) -> bool {
    !line.contains('\n') && directive(line) is None
}

proof fn lemma_single_line(l: Seq<char>)
    requires
        !l.contains('\n'),
    ensures
        lines_of(l) == seq![l],
{
    assert forall|k: int| 0 <= k < l.len() implies #[trigger] l[k] != '\n' by {
        if l[k] == '\n' {
            assert(l.contains('\n'));
        }
    }
    crate::text::lemma_first_newline(l, l.len() as int);
}

/// Inserting a blank line, a comment or a line of an unknown keyword
/// between two lines of a configuration does not change what is imported.
pub proof fn law_neutral_line_inserted(
    before: Seq<char>,
    line: Seq<char>,
    after: Seq<char>,
    home: Option<Seq<char>>,
)
    requires
        is_neutral_line(line),
    ensures
        parse_config(before + seq!['\n'] + line + seq!['\n'] + after, home) == parse_config(
            before + seq!['\n'] + after,
            home,
        ),
{
    let with = before + seq!['\n'] + line + seq!['\n'] + after;
    let without = before + seq!['\n'] + after;
    assert(with =~= before + seq!['\n'] + (line + seq!['\n'] + after));
    lemma_lines_of_concat(before, line + seq!['\n'] + after);
    lemma_lines_of_concat(line, after);
    lemma_lines_of_concat(before, after);
    lemma_single_line(line);
    lemma_directives_concat(lines_of(before), seq![line] + lines_of(after));
    lemma_directives_concat(seq![line], lines_of(after));
    lemma_directives_concat(lines_of(before), lines_of(after));
    assert(seq![line].drop_first() =~= Seq::<Seq<char>>::empty());
    assert(seq![line][0] == line);
    assert(directives_of(Seq::<Seq<char>>::empty()) =~= Seq::<(int, Seq<char>)>::empty());
    assert(directives_of(seq![line]) =~= Seq::<(int, Seq<char>)>::empty());
    assert(directives_of(lines_of(with)) =~= directives_of(lines_of(without)));
    law_parse_depends_on_directives_only(with, without, home);
}

/// Inserting a blank line, a comment or a line of an unknown keyword at the
/// start of a configuration does not change what is imported.
pub proof fn law_neutral_line_prepended(line: Seq<char>, after: Seq<char>, home: Option<Seq<char>>)
    requires
        is_neutral_line(line),
    ensures
        parse_config(line + seq!['\n'] + after, home) == parse_config(after, home),
{
    let with = line + seq!['\n'] + after;
    lemma_lines_of_concat(line, after);
    lemma_single_line(line);
    lemma_directives_concat(seq![line], lines_of(after));
    assert(seq![line].drop_first() =~= Seq::<Seq<char>>::empty());
    assert(seq![line][0] == line);
    assert(directives_of(Seq::<Seq<char>>::empty()) =~= Seq::<(int, Seq<char>)>::empty());
    assert(directives_of(seq![line]) =~= Seq::<(int, Seq<char>)>::empty());
    assert(directives_of(lines_of(with)) =~= directives_of(lines_of(after)));
    law_parse_depends_on_directives_only(with, after, home);
}

/// Every character of `w` is white space other than a line break.
pub open spec fn is_blank(w: Seq<char>) -> bool {
    forall|i: int| 0 <= i < w.len() ==> is_ws(#[trigger] w[i]) && w[i] != '\n'
}

/// A keyword as written: not empty, no white space, not a comment.
pub open spec fn is_key_word(k: Seq<char>) -> bool {
    k.len() > 0 && k[0] != '#' && forall|i: int| 0 <= i < k.len() ==> !is_ws(#[trigger] k[i])
}

/// A value as written: without white space at either end.
pub open spec fn is_bare_value(v: Seq<char>) -> bool {
    v.len() == 0 || (!is_ws(v[0]) && !is_ws(v.last()))
}

/// A configuration line: indentation, keyword, separating white space,
/// value and trailing white space.
pub open spec fn spelled_line(
    indent: Seq<char>,
    key: Seq<char>,
    sep: Seq<char>,
    value: Seq<char>,
    trail: Seq<char>,
) -> Seq<char> {
    indent + key + sep + value + trail
}

/// The value of `c` with ASCII upper-case letters lower-cased, as a code
/// point.
pub open spec fn ascii_fold(c: char) -> u32 {
    if 'A' <= c && c <= 'Z' {
        (c as u32 + 32) as u32
    } else {
        c as u32
    }
}

/// `a` and `b` are the same word up to the case of ASCII letters.
pub open spec fn same_up_to_ascii_case(a: Seq<char>, b: Seq<char>) -> bool {
    a.len() == b.len() && forall|i: int| 0 <= i < a.len() ==> ascii_fold(#[trigger] a[i]) == ascii_fold(b[i])
}

proof fn lemma_trim_start_blank(w: Seq<char>, x: Seq<char>)
    requires
        forall|i: int| 0 <= i < w.len() ==> is_ws(#[trigger] w[i]),
    ensures
        trim_start(w + x) == trim_start(x),
    decreases w.len(),
{
    if w.len() > 0 {
        assert((w + x)[0] == w[0]);
        assert((w + x).drop_first() =~= w.drop_first() + x);
        assert forall|i: int| 0 <= i < w.drop_first().len() implies is_ws(#[trigger] w.drop_first()[i]) by {
            assert(w.drop_first()[i] == w[i + 1]);
        }
        lemma_trim_start_blank(w.drop_first(), x);
    } else {
        assert(w + x =~= x);
    }
}

proof fn lemma_trim_end_blank(x: Seq<char>, w: Seq<char>)
    requires
        forall|i: int| 0 <= i < w.len() ==> is_ws(#[trigger] w[i]),
    ensures
        trim_end(x + w) == trim_end(x),
    decreases w.len(),
{
    if w.len() > 0 {
        assert((x + w).last() == w.last());
        assert(is_ws(w[w.len() - 1]));
        assert((x + w).drop_last() =~= x + w.drop_last());
        assert forall|i: int| 0 <= i < w.drop_last().len() implies is_ws(#[trigger] w.drop_last()[i]) by {
            assert(w.drop_last()[i] == w[i]);
        }
        lemma_trim_end_blank(x, w.drop_last());
    } else {
        assert(x + w =~= x);
    }
}

proof fn lemma_trim_bare(v: Seq<char>)
    requires
        is_bare_value(v),
    ensures
        trim(v) == v,
{
}

/// The trimmed text, key and value of a spelled line.
proof fn lemma_spelled_parts(
    indent: Seq<char>,
    key: Seq<char>,
    sep: Seq<char>,
    value: Seq<char>,
    trail: Seq<char>,
)
    requires
        is_blank(indent),
        is_key_word(key),
        is_blank(sep),
        sep.len() > 0,
        is_bare_value(value),
        is_blank(trail),
    ensures
        trim(spelled_line(indent, key, sep, value, trail)).len() > 0,
        trim(spelled_line(indent, key, sep, value, trail))[0] == key[0],
        line_key(trim(spelled_line(indent, key, sep, value, trail))) == key,
        line_value(trim(spelled_line(indent, key, sep, value, trail))) == value,
{
    let line = spelled_line(indent, key, sep, value, trail);
    let core = key + sep + value;
    assert(line =~= indent + (core + trail));
    lemma_trim_start_blank(indent, core + trail);
    assert((core + trail)[0] == key[0]);
    assert(trim_start(core + trail) == core + trail);
    let t = trim(line);
    if value.len() > 0 {
        lemma_trim_end_blank(core, trail);
        assert(core.last() == value.last());
        assert(trim_end(core) == core);
        assert(t == core);
    } else {
        assert(core + trail =~= key + (sep + trail));
        assert forall|i: int| 0 <= i < (sep + trail).len() implies is_ws(#[trigger] (sep + trail)[i]) by {
            if i < sep.len() {
                assert((sep + trail)[i] == sep[i]);
            } else {
                assert((sep + trail)[i] == trail[i - sep.len()]);
            }
        }
        lemma_trim_end_blank(key, sep + trail);
        assert(key.last() == key[key.len() - 1]);
        assert(trim_end(key) == key);
        assert(t == key);
    }
    let m = key.len() as int;
    assert forall|k: int| 0 <= k < m implies !is_ws(#[trigger] t[k]) by {
        assert(t[k] == key[k]);
    }
    if value.len() > 0 {
        assert(t[m] == sep[0]);
    }
    crate::text::lemma_first_ws(t, m);
    assert(line_key(t) =~= key);
    if value.len() > 0 {
        assert(t.skip(m + 1) =~= sep.drop_first() + value);
        assert forall|i: int| 0 <= i < sep.drop_first().len() implies is_ws(#[trigger] sep.drop_first()[i]) by {
            assert(sep.drop_first()[i] == sep[i + 1]);
        }
        lemma_trim_start_blank(sep.drop_first(), value);
        assert(trim_start(value) == value);
        assert(trim_end(value) == value);
    } else {
        assert(line_value(t) =~= value);
    }
}

proof fn lemma_ascii_ci_eq_fold(c: char, l: char)
    requires
        'a' <= l && l <= 'z',
    ensures
        ascii_ci_eq(c, l) == (ascii_fold(c) == l as u32),
{
    let cu = c as u32;
    let lu = l as u32;
    assert(97 <= lu <= 122);
    if 'A' <= c && c <= 'Z' {
        assert(65 <= cu <= 90);
        assert(c != l);
    } else {
        assert(!(65 <= cu <= 90));
        assert(cu + 32 == lu ==> 65 <= cu <= 90);
    }
}

proof fn lemma_keyword_case(a: Seq<char>, b: Seq<char>, kw: Seq<char>)
    requires
        same_up_to_ascii_case(a, b),
        forall|i: int| 0 <= i < kw.len() ==> 'a' <= #[trigger] kw[i] && kw[i] <= 'z',
    ensures
        is_keyword(a, kw) == is_keyword(b, kw),
{
    assert forall|i: int| 0 <= i < a.len() && i < kw.len() implies ascii_ci_eq(#[trigger] a[i], kw[i])
        == ascii_ci_eq(b[i], kw[i]) by {
        assert(ascii_fold(a[i]) == ascii_fold(b[i]));
        lemma_ascii_ci_eq_fold(a[i], kw[i]);
        lemma_ascii_ci_eq_fold(b[i], kw[i]);
    }
    if a.len() == kw.len() {
        if is_keyword(a, kw) {
            assert forall|i: int| 0 <= i < b.len() implies ascii_ci_eq(#[trigger] b[i], kw[i]) by {
                assert(ascii_ci_eq(a[i], kw[i]));
            }
        }
        if is_keyword(b, kw) {
            assert forall|i: int| 0 <= i < a.len() implies ascii_ci_eq(#[trigger] a[i], kw[i]) by {
                assert(ascii_ci_eq(b[i], kw[i]));
            }
        }
    }
}

/// Two lines that spell the same keyword, up to the case of its letters,
/// with the same value, set the same thing, whatever white space surrounds
/// and separates them.
pub proof fn law_line_spelling_ignored(
    indent1: Seq<char>,
    key1: Seq<char>,
    sep1: Seq<char>,
    trail1: Seq<char>,
    indent2: Seq<char>,
    key2: Seq<char>,
    sep2: Seq<char>,
    trail2: Seq<char>,
    value: Seq<char>,
)
    requires
        is_blank(indent1),
        is_blank(sep1),
        sep1.len() > 0,
        is_blank(trail1),
        is_blank(indent2),
        is_blank(sep2),
        sep2.len() > 0,
        is_blank(trail2),
        is_key_word(key1),
        is_key_word(key2),
        same_up_to_ascii_case(key1, key2),
        is_bare_value(value),
    ensures
        directive(spelled_line(indent1, key1, sep1, value, trail1)) == directive(
            spelled_line(indent2, key2, sep2, value, trail2),
        ),
{
    lemma_spelled_parts(indent1, key1, sep1, value, trail1);
    lemma_spelled_parts(indent2, key2, sep2, value, trail2);
    let host = seq!['h', 'o', 's', 't'];
    let hostname = seq!['h', 'o', 's', 't', 'n', 'a', 'm', 'e'];
    let port = seq!['p', 'o', 'r', 't'];
    let user = seq!['u', 's', 'e', 'r'];
    let identityfile = seq!['i', 'd', 'e', 'n', 't', 'i', 't', 'y', 'f', 'i', 'l', 'e'];
    assert forall|i: int| 0 <= i < host.len() implies 'a' <= #[trigger] host[i] && host[i] <= 'z' by {}
    assert forall|i: int| 0 <= i < hostname.len() implies 'a' <= #[trigger] hostname[i] && hostname[i] <= 'z' by {}
    assert forall|i: int| 0 <= i < port.len() implies 'a' <= #[trigger] port[i] && port[i] <= 'z' by {}
    assert forall|i: int| 0 <= i < user.len() implies 'a' <= #[trigger] user[i] && user[i] <= 'z' by {}
    assert forall|i: int| 0 <= i < identityfile.len() implies 'a' <= #[trigger] identityfile[i] && identityfile[i] <= 'z' by {}
    lemma_keyword_case(key1, key2, host);
    lemma_keyword_case(key1, key2, hostname);
    lemma_keyword_case(key1, key2, port);
    lemma_keyword_case(key1, key2, user);
    lemma_keyword_case(key1, key2, identityfile);
}

/// Lines joined into one text, with `'\n'` between consecutive lines.
pub open spec fn join_lines(ls: Seq<Seq<char>>) -> Seq<char>
    decreases ls.len(),
{
    if ls.len() <= 1 {
        if ls.len() == 0 {
            Seq::empty()
        } else {
            ls[0]
        }
    } else {
        ls[0] + seq!['\n'] + join_lines(ls.drop_first())
    }
}

/// No line holds a line break.
pub open spec fn single_lines(ls: Seq<Seq<char>>) -> bool {
    forall|i: int| 0 <= i < ls.len() ==> !(#[trigger] ls[i]).contains('\n')
}

proof fn lemma_lines_of_join(ls: Seq<Seq<char>>)
    requires
        ls.len() > 0,
        single_lines(ls),
    ensures
        lines_of(join_lines(ls)) == ls,
    decreases ls.len(),
{
    lemma_single_line(ls[0]);
    if ls.len() > 1 {
        let rest = ls.drop_first();
        assert forall|i: int| 0 <= i < rest.len() implies !(#[trigger] rest[i]).contains('\n') by {
            assert(rest[i] == ls[i + 1]);
        }
        lemma_lines_of_join(rest);
        lemma_lines_of_concat(ls[0], join_lines(rest));
        assert(seq![ls[0]] + rest =~= ls);
    } else {
        assert(seq![ls[0]] =~= ls);
    }
}

proof fn lemma_directives_pointwise(a: Seq<Seq<char>>, b: Seq<Seq<char>>)
    requires
        a.len() == b.len(),
        forall|i: int| 0 <= i < a.len() ==> directive(#[trigger] a[i]) == directive(b[i]),
    ensures
        directives_of(a) == directives_of(b),
    decreases a.len(),
{
    if a.len() > 0 {
        assert(directive(a[0]) == directive(b[0]));
        assert forall|i: int| 0 <= i < a.drop_first().len() implies directive(
            #[trigger] a.drop_first()[i],
        ) == directive(b.drop_first()[i]) by {
            assert(a.drop_first()[i] == a[i + 1]);
            assert(b.drop_first()[i] == b[i + 1]);
        }
        lemma_directives_pointwise(a.drop_first(), b.drop_first());
    }
}

/// Two configurations written line for line, where each line sets what the
/// line in the same place of the other sets (the same keyword in any case,
/// the same value, any indentation and spacing, or nothing at all), import
/// the same hosts.
pub proof fn law_lines_respelled(a: Seq<Seq<char>>, b: Seq<Seq<char>>, home: Option<Seq<char>>)
    requires
        a.len() == b.len(),
        a.len() > 0,
        single_lines(a),
        single_lines(b),
        forall|i: int| 0 <= i < a.len() ==> directive(#[trigger] a[i]) == directive(b[i]),
    ensures
        parse_config(join_lines(a), home) == parse_config(join_lines(b), home),
{
    lemma_lines_of_join(a);
    lemma_lines_of_join(b);
    lemma_directives_pointwise(a, b);
    law_parse_depends_on_directives_only(join_lines(a), join_lines(b), home);
}

/// Inserting a blank line, a comment or a line of an unknown keyword at any
/// place of a configuration, first and last included, does not change what
/// is imported.
pub proof fn law_neutral_line_inserted_at(
    a: Seq<Seq<char>>,
    i: int,
    line: Seq<char>,
    home: Option<Seq<char>>,
)
    requires
        a.len() > 0,
        0 <= i <= a.len(),
        single_lines(a),
        is_neutral_line(line),
    ensures
        parse_config(join_lines(a.insert(i, line)), home) == parse_config(join_lines(a), home),
{
    let b = a.insert(i, line);
    assert forall|k: int| 0 <= k < b.len() implies !(#[trigger] b[k]).contains('\n') by {
        if k < i {
            assert(b[k] == a[k]);
        } else if k > i {
            assert(b[k] == a[k - 1]);
        }
    }
    lemma_lines_of_join(a);
    lemma_lines_of_join(b);
    assert(b =~= a.take(i) + (seq![line] + a.skip(i)));
    assert(a =~= a.take(i) + a.skip(i));
    lemma_directives_concat(a.take(i), seq![line] + a.skip(i));
    lemma_directives_concat(seq![line], a.skip(i));
    lemma_directives_concat(a.take(i), a.skip(i));
    assert(seq![line].drop_first() =~= Seq::<Seq<char>>::empty());
    assert(seq![line][0] == line);
    assert(directives_of(Seq::<Seq<char>>::empty()) =~= Seq::<(int, Seq<char>)>::empty());
    assert(directives_of(seq![line]) =~= Seq::<(int, Seq<char>)>::empty());
    assert(directives_of(b) =~= directives_of(a));
    law_parse_depends_on_directives_only(join_lines(b), join_lines(a), home);
}

proof fn lemma_flush_prefix(e: Seq<SshConfigEntryView>, x: Seq<SshConfigEntryView>, b: HostBlockView)
    ensures
        flush_block(e + x, b) == e + flush_block(x, b),
{
    match (b.alias, b.hostname) {
        (Some(a), Some(h)) => {
            if !is_wildcard(a) {
                let n = SshConfigEntryView {
                    alias: a,
                    hostname: h,
                    port: match b.port {
                        Some(p) => p,
                        None => DEFAULT_SSH_PORT,
                    },
                    user: b.user,
                    identity_file: b.identity,
                };
                assert((e + x).push(n) =~= e + x.push(n));
            }
        },
        _ => {},
    }
}

proof fn lemma_apply_directives_concat(
    st: ParseStateView,
    a: Seq<(int, Seq<char>)>,
    b: Seq<(int, Seq<char>)>,
    home: Option<Seq<char>>,
)
    ensures
        apply_directives(st, a + b, home) == apply_directives(apply_directives(st, a, home), b, home),
    decreases a.len(),
{
    if a.len() == 0 {
        assert(a + b =~= b);
    } else {
        assert((a + b)[0] == a[0]);
        assert((a + b).drop_first() =~= a.drop_first() + b);
        lemma_apply_directives_concat(apply_directive(st, a[0], home), a.drop_first(), b, home);
    }
}

/// The entries gathered so far only ever grow at the end, and what is
/// appended depends only on the open block, not on earlier entries.
proof fn lemma_apply_directives_prefix(st: ParseStateView, ds: Seq<(int, Seq<char>)>, home: Option<Seq<char>>)
    ensures
        apply_directives(st, ds, home) == (ParseStateView {
            entries: st.entries + apply_directives(
                ParseStateView { entries: Seq::empty(), block: st.block },
                ds,
                home,
            ).entries,
            block: apply_directives(
                ParseStateView { entries: Seq::empty(), block: st.block },
                ds,
                home,
            ).block,
        }),
    decreases ds.len(),
{
    let st0 = ParseStateView { entries: Seq::<SshConfigEntryView>::empty(), block: st.block };
    if ds.len() == 0 {
        assert(st.entries + st0.entries =~= st.entries);
    } else {
        let d = ds[0];
        let s1 = apply_directive(st, d, home);
        let t1 = apply_directive(st0, d, home);
        lemma_flush_prefix(st.entries, Seq::empty(), st.block);
        assert(st.entries + Seq::<SshConfigEntryView>::empty() =~= st.entries);
        assert(s1.entries == st.entries + t1.entries);
        assert(s1.block == t1.block);
        lemma_apply_directives_prefix(s1, ds.drop_first(), home);
        lemma_apply_directives_prefix(t1, ds.drop_first(), home);
        let r = apply_directives(
            ParseStateView { entries: Seq::empty(), block: s1.block },
            ds.drop_first(),
            home,
        );
        assert(st.entries + t1.entries + r.entries =~= st.entries + (t1.entries + r.entries));
    }
}

/// Whether the first line of `b` is a `Host` line.
pub open spec fn starts_with_host(b: Seq<char>) -> bool {
    match directive(lines_of(b)[0]) {
        Some(d) => d.0 == 0,
        None => false,
    }
}

proof fn lemma_lines_nonempty(s: Seq<char>)
    ensures
        lines_of(s).len() > 0,
    decreases s.len(),
{
}

/// A host's entry depends only on the lines of its own `Host` block: a
/// text that starts with a `Host` line, put after another text, adds
/// exactly its own entries after the other text's entries; nothing set in
/// the earlier block carries over.
pub proof fn law_host_blocks_independent(a: Seq<char>, b: Seq<char>, home: Option<Seq<char>>)
    requires
        starts_with_host(b),
    ensures
        parse_config(a + seq!['\n'] + b, home) == parse_config(a, home) + parse_config(b, home),
{
    let init = ParseStateView { entries: Seq::<SshConfigEntryView>::empty(), block: empty_block() };
    let t = a + seq!['\n'] + b;
    lemma_apply_lines_directives(init, t, home);
    lemma_apply_lines_directives(init, a, home);
    lemma_apply_lines_directives(init, b, home);
    lemma_lines_of_concat(a, b);
    lemma_lines_nonempty(b);
    lemma_directives_concat(lines_of(a), lines_of(b));
    let da = directives_of(lines_of(a));
    let db = directives_of(lines_of(b));
    let d = directive(lines_of(b)[0]).unwrap();
    assert(db == seq![d] + directives_of(lines_of(b).drop_first()));
    assert(db[0] == d);
    assert(db.drop_first() =~= directives_of(lines_of(b).drop_first()));
    lemma_apply_directives_concat(init, da, db, home);
    let sa = apply_directives(init, da, home);
    let b0 = HostBlockView { alias: Some(d.1), ..empty_block() };
    let sa1 = apply_directive(sa, d, home);
    assert(sa1 == (ParseStateView { entries: parse_config(a, home), block: b0 }));
    let i1 = apply_directive(init, d, home);
    assert(flush_block(Seq::empty(), empty_block()) == Seq::<SshConfigEntryView>::empty());
    assert(i1 == (ParseStateView { entries: Seq::<SshConfigEntryView>::empty(), block: b0 }));
    lemma_apply_directives_prefix(sa1, db.drop_first(), home);
    let r = apply_directives(i1, db.drop_first(), home);
    assert(apply_directives(init, db, home) == r);
    lemma_flush_prefix(parse_config(a, home), r.entries, r.block);
}

/// Whether a line of `b` sets a port.
pub open spec fn has_port_line(b: Seq<char>) -> bool {
    exists|i: int|
        0 <= i < directives_of(lines_of(b)).len() && (#[trigger] directives_of(lines_of(b))[i]).0 == 2
}

spec fn all_default_port(e: Seq<SshConfigEntryView>) -> bool {
    forall|i: int| 0 <= i < e.len() ==> (#[trigger] e[i]).port == DEFAULT_SSH_PORT
}

proof fn lemma_no_port_directives(st: ParseStateView, ds: Seq<(int, Seq<char>)>, home: Option<Seq<char>>)
    requires
        all_default_port(st.entries),
        st.block.port is None,
        forall|i: int| 0 <= i < ds.len() ==> (#[trigger] ds[i]).0 != 2,
    ensures
        all_default_port(apply_directives(st, ds, home).entries),
        apply_directives(st, ds, home).block.port is None,
    decreases ds.len(),
{
    if ds.len() > 0 {
        let s1 = apply_directive(st, ds[0], home);
        assert(ds[0].0 != 2);
        assert(all_default_port(s1.entries)) by {
            let f = flush_block(st.entries, st.block);
            assert forall|i: int| 0 <= i < f.len() implies (#[trigger] f[i]).port == DEFAULT_SSH_PORT by {
                if i < st.entries.len() {
                    assert(f[i] == st.entries[i]);
                }
            }
        }
        assert forall|i: int| 0 <= i < ds.drop_first().len() implies (#[trigger] ds.drop_first()[i]).0 != 2 by {
            assert(ds.drop_first()[i] == ds[i + 1]);
        }
        lemma_no_port_directives(s1, ds.drop_first(), home);
    }
}

/// A host whose block names no port gets port 22, whatever came before it:
/// every entry that a `Host` block without a `Port` line adds, after any
/// text, has the default port.
pub proof fn law_missing_port_defaults(a: Seq<char>, b: Seq<char>, home: Option<Seq<char>>)
    requires
        starts_with_host(b),
        !has_port_line(b),
    ensures
        forall|i: int|
            parse_config(a, home).len() <= i < parse_config(a + seq!['\n'] + b, home).len() ==> (
            #[trigger] parse_config(a + seq!['\n'] + b, home)[i]).port == DEFAULT_SSH_PORT,
{
    law_host_blocks_independent(a, b, home);
    let init = ParseStateView { entries: Seq::<SshConfigEntryView>::empty(), block: empty_block() };
    lemma_apply_lines_directives(init, b, home);
    let db = directives_of(lines_of(b));
    assert forall|i: int| 0 <= i < db.len() implies (#[trigger] db[i]).0 != 2 by {
        if db[i].0 == 2 {
            assert(has_port_line(b));
        }
    }
    lemma_no_port_directives(init, db, home);
    let st = apply_directives(init, db, home);
    let pb = parse_config(b, home);
    assert(all_default_port(pb)) by {
        assert forall|i: int| 0 <= i < pb.len() implies (#[trigger] pb[i]).port == DEFAULT_SSH_PORT by {
            if i < st.entries.len() {
                assert(pb[i] == st.entries[i]);
            }
        }
    }
    let pa = parse_config(a, home);
    assert forall|i: int| pa.len() <= i < parse_config(a + seq!['\n'] + b, home).len() implies (
    #[trigger] parse_config(a + seq!['\n'] + b, home)[i]).port == DEFAULT_SSH_PORT by {
        assert((pa + pb)[i] == pb[i - pa.len()]);
    }
}

/// The views of parsed entries.
pub open spec fn entries_view(v: Seq<SshConfigEntry>) -> Seq<SshConfigEntryView> {
    v.map_values(|e: SshConfigEntry| e@)
}

/// The view of an optional string slice.
pub open spec fn opt_str_ref(o: Option<&str>) -> Option<Seq<char>> {
    match o {
        Some(s) => Some(s@),
        None => None,
    }
}

struct HostBlock {
    alias: Option<String>,
    hostname: Option<String>,
    port: Option<u16>,
    user: Option<String>,
    identity: Option<String>,
}

impl View for HostBlock {
    type V = HostBlockView;

    closed spec fn view(&self) -> HostBlockView {
        HostBlockView {
            alias: opt_str(self.alias),
            hostname: opt_str(self.hostname),
            port: self.port,
            user: opt_str(self.user),
            identity: opt_str(self.identity),
        }
    }
}

fn new_block() -> (b: HostBlock)
    ensures
        b@ == empty_block(),
{
    HostBlock { alias: None, hostname: None, port: None, user: None, identity: None }
}

/// Appends the finished `block` to `entries` when it names a concrete host.
fn flush(entries: &mut Vec<SshConfigEntry>, block: HostBlock)
    ensures
        entries_view(final(entries)@) == flush_block(entries_view(old(entries)@), block@),
{
    let ghost bv = block@;
    let HostBlock { alias, hostname, port, user, identity } = block;
    match (alias, hostname) {
        (Some(a), Some(h)) => {
            let av = chars_of(a.as_str());
            if range_contains(&av, 0, av.len(), '*') || range_contains(&av, 0, av.len(), '?') {
                assert(av@.subrange(0, av@.len() as int) =~= a@);
                return ;
            }
            assert(av@.subrange(0, av@.len() as int) =~= a@);
            let port = match port {
                Some(p) => p,
                None => DEFAULT_SSH_PORT,
            };
            let e = SshConfigEntry { alias: a, hostname: h, port, user, identity_file: identity };
            entries.push(e);
            assert(entries_view(entries@) =~= entries_view(old(entries)@).push(e@));
        },
        _ => {},
    }
}

/// Whether `v[lo..hi]` is `kw` once ASCII letters are lower-cased.
fn is_keyword_range(v: &Vec<char>, lo: usize, hi: usize, kw: &[char]) -> (b: bool)
    requires
        lo <= hi <= v@.len(),
    ensures
        b == is_keyword(v@.subrange(lo as int, hi as int), kw@),
{
    let ghost key = v@.subrange(lo as int, hi as int);
    if hi - lo != kw.len() {
        return false;
    }
    let mut i: usize = 0;
    while i < kw.len()
        invariant
            lo <= hi <= v@.len(),
            hi - lo == kw@.len(),
            key == v@.subrange(lo as int, hi as int),
            i <= kw@.len(),
            forall|k: int| 0 <= k < i ==> ascii_ci_eq(#[trigger] key[k], kw@[k]),
        decreases kw.len() - i,
    {
        let c = v[lo + i];
        let l = kw[i];
        let same = c == l || ('a' <= l && l <= 'z' && (c as u32) == (l as u32) - 32);
        if !same {
            assert(!ascii_ci_eq(key[i as int], kw@[i as int]));
            return false;
        }
        assert(ascii_ci_eq(key[i as int], kw@[i as int]));
        i = i + 1;
    }
    true
}

/// The exec state of the parser between two lines.
struct ParseState {
    entries: Vec<SshConfigEntry>,
    block: HostBlock,
}

impl ParseState {
    closed spec fn view(&self) -> ParseStateView {
        ParseStateView { entries: entries_view(self.entries@), block: self.block@ }
    }
}

/// Applies the line `text[lo..hi]` to `st`.
fn process_line(
    v: &Vec<char>,
    text: &str,
    lo: usize,
    hi: usize,
    st: &mut ParseState,
    home: Option<&str>,
)
    requires
        v@ == text@,
        lo <= hi <= v@.len(),
    ensures
        final(st).view() == apply_line(old(st).view(), v@.subrange(lo as int, hi as int), opt_str_ref(home)),
{
    let ghost line = v@.subrange(lo as int, hi as int);
    let (a, b) = trim_range(v, lo, hi);
    let ghost t = v@.subrange(a as int, b as int);
    if a == b || v[a] == '#' {
        return ;
    }
    let mut w = a;
    while w < b && !is_whitespace(v[w])
        invariant
            a <= w <= b <= v@.len(),
            t == v@.subrange(a as int, b as int),
            forall|k: int| 0 <= k < w - a ==> !is_ws(#[trigger] t[k]),
        decreases b - w,
    {
        w = w + 1;
    }
    proof {
        lemma_first_ws(t, w - a);
    }
    assert(line_key(t) =~= v@.subrange(a as int, w as int));
    let (va, vb) = if w < b {
        assert(t.skip(w - a + 1) =~= v@.subrange(w + 1, b as int));
        trim_range(v, w + 1, b)
    } else {
        (b, b)
    };
    assert(line_value(t) =~= v@.subrange(va as int, vb as int));
    if is_keyword_range(v, a, w, &['h', 'o', 's', 't']) {
        let val = text.substring_char(va, vb).to_owned();
        let mut old_block = new_block();
        std::mem::swap(&mut st.block, &mut old_block);
        flush(&mut st.entries, old_block);
        st.block.alias = Some(val);
    } else if is_keyword_range(v, a, w, &['h', 'o', 's', 't', 'n', 'a', 'm', 'e']) {
        st.block.hostname = Some(text.substring_char(va, vb).to_owned());
    } else if is_keyword_range(v, a, w, &['p', 'o', 'r', 't']) {
        st.block.port = parse_u16_range(v, va, vb);
    } else if is_keyword_range(v, a, w, &['u', 's', 'e', 'r']) {
        st.block.user = Some(text.substring_char(va, vb).to_owned());
    } else if is_keyword_range(
        v,
        a,
        w,
        &['i', 'd', 'e', 'n', 't', 'i', 't', 'y', 'f', 'i', 'l', 'e'],
    ) {
        let val = text.substring_char(va, vb);
        st.block.identity = Some(expand_tilde_with_home(val, home));
    }
}

/// The hosts defined by the SSH client configuration `text`, in file order,
/// with `~` in identity files resolved against `home`.
pub fn parse_ssh_config_text(text: &str, home: Option<&str>) -> (entries: Vec<SshConfigEntry>)
    ensures
        entries_view(entries@) == parse_config(text@, opt_str_ref(home)),
{
    let v = chars_of(text);
    let n = v.len();
    let mut st = ParseState { entries: Vec::new(), block: new_block() };
    let ghost init = ParseStateView { entries: Seq::empty(), block: empty_block() };
    assert(st.view().entries =~= Seq::<SshConfigEntryView>::empty());
    assert(text@.skip(0) =~= text@);
    let mut pos: usize = 0;
    loop
        invariant
            v@ == text@,
            n == v@.len(),
            pos <= n,
            init == (ParseStateView { entries: Seq::empty(), block: empty_block() }),
            apply_lines(init, text@, opt_str_ref(home)) == apply_lines(
                st.view(),
                text@.skip(pos as int),
                opt_str_ref(home),
            ),
        decreases n - pos,
    {
        let ghost s = text@.skip(pos as int);
        let mut j = pos;
        while j < n && v[j] != '\n'
            invariant
                v@ == text@,
                n == v@.len(),
                pos <= j <= n,
                s == text@.skip(pos as int),
                forall|k: int| 0 <= k < j - pos ==> #[trigger] s[k] != '\n',
            decreases n - j,
        {
            j = j + 1;
        }
        proof {
            lemma_first_newline(s, j - pos);
        }
        let ghost before = st.view();
        process_line(&v, text, pos, j, &mut st, home);
        if j == n {
            assert(s =~= v@.subrange(pos as int, j as int));
            assert(apply_lines(before, s, opt_str_ref(home)) == apply_line(before, s, opt_str_ref(home)));
            let ghost last = st.view();
            let ParseState { entries, block } = st;
            let mut entries = entries;
            assert(entries_view(entries@) == last.entries && block@ == last.block);
            flush(&mut entries, block);
            return entries;
        }
        assert(s.take(j - pos) =~= v@.subrange(pos as int, j as int));
        assert(s.skip(j - pos + 1) =~= text@.skip(j + 1));
        pos = j + 1;
    }
}

/// The hosts defined by the SSH client configuration `text`, in file order,
/// with `~` in identity files resolved against the user's home directory
/// when that is known.
pub fn parse_ssh_config_str(text: &str) -> (entries: Vec<SshConfigEntry>)
    ensures
        exists|home: Option<Seq<char>>| entries_view(entries@) == #[trigger] parse_config(text@, home),
{
    let home = home_dir_string();
    let entries = match &home {
        Some(h) => parse_ssh_config_text(text, Some(h.as_str())),
        None => parse_ssh_config_text(text, None),
    };
    entries
}

} // verus!
