//! What the agent reports of files: permission bits, hidden names and owners.
use vstd::prelude::*;
use crate::text::{
    all_digits, law_parse_undoes_decimal, lemma_decimal_digits, lemma_split_concat_at, lemma_split_whole,
    Sep, chars_of, decimal, line_ranges, lines, parse_u32_range, parse_unsigned, ranges_are,
    split_by, split_ranges, string_of_range, u64_to_string,
};

verus! {

/// What the agent reports of one file or directory.
#[derive(Debug)]
pub struct FileInfo {
    pub name: String,
    pub path: String,
    pub size: i64,
    pub last_modified: Option<i64>,
    pub is_directory: bool,
    pub is_symlink: bool,
    pub is_hidden: bool,
    pub readable: bool,
    pub writable: bool,
    pub executable: bool,
    pub user_name: Option<String>,
}

/// Whether anyone may read, write and execute, by the Unix mode bits.
pub fn permission_flags(mode: u32) -> (r: (bool, bool, bool))
    ensures
        r.0 == (mode & 0o444u32 != 0),
        r.1 == (mode & 0o222u32 != 0),
        r.2 == (mode & 0o111u32 != 0),
{
    (mode & 0o444 != 0, mode & 0o222 != 0, mode & 0o111 != 0)
}

/// Whether a file name marks a hidden file on Unix: it begins with a dot. A path
/// without a final name, or one that is not valid text, is not hidden.
pub fn is_hidden_name(name: Option<&str>) -> (r: bool)
    ensures
        r == match name { Some(n) => n@.len() > 0 && n@[0] == '.', None => false },
{
    match name {
        Some(n) => {
            let v = chars_of(n);
            v.len() > 0 && v[0] == '.'
        },
        None => false,
    }
}

/// The user name `/etc/passwd` gives for `uid`: the first field of the first line whose
/// third field reads as that id.
pub open spec fn passwd_owner(ls: Seq<Seq<char>>, uid: u32) -> Option<Seq<char>>
    decreases ls.len(),
{
    if ls.len() == 0 {
        None
    } else {
        let fields = split_by(ls[0], Sep::Char(':'));
        if fields.len() >= 3 && parse_unsigned(fields[2], u32::MAX as int) == Some(uid as int) {
            Some(fields[0])
        } else {
            passwd_owner(ls.drop_first(), uid)
        }
    }
}

/// Line `i` of `/etc/passwd` is the first whose third colon-separated field (the user id)
/// reads as `uid`.
pub open spec fn first_line_for_uid(ls: Seq<Seq<char>>, uid: u32, i: int) -> bool {
    &&& 0 <= i < ls.len()
    &&& split_by(ls[i], Sep::Char(':')).len() >= 3
    &&& parse_unsigned(split_by(ls[i], Sep::Char(':'))[2], u32::MAX as int) == Some(uid as int)
    &&& forall|j: int| 0 <= j < i ==> !(split_by(#[trigger] ls[j], Sep::Char(':')).len() >= 3
        && parse_unsigned(split_by(ls[j], Sep::Char(':'))[2], u32::MAX as int) == Some(uid as int))
}

/// The owner of `uid` is the first field (the user name) of the first line whose third
/// field (the user id) reads as `uid`; when no line's third field does, there is none. The
/// other fields, the group id among them, play no part.
pub proof fn law_owner_from_first_uid_line(ls: Seq<Seq<char>>, uid: u32)
    ensures
        forall|i: int| #[trigger] first_line_for_uid(ls, uid, i)
            ==> passwd_owner(ls, uid) == Some(split_by(ls[i], Sep::Char(':'))[0]),
        (forall|j: int| 0 <= j < ls.len() ==> !(split_by(#[trigger] ls[j], Sep::Char(':')).len() >= 3
            && parse_unsigned(split_by(ls[j], Sep::Char(':'))[2], u32::MAX as int) == Some(uid as int)))
            ==> passwd_owner(ls, uid) is None,
    decreases ls.len(),
{
    if ls.len() > 0 {
        let rest = ls.drop_first();
        law_owner_from_first_uid_line(rest, uid);
        assert forall|i: int| #[trigger] first_line_for_uid(ls, uid, i)
            implies passwd_owner(ls, uid) == Some(split_by(ls[i], Sep::Char(':'))[0]) by {
            if i > 0 {
                assert(!(split_by(ls[0], Sep::Char(':')).len() >= 3
                    && parse_unsigned(split_by(ls[0], Sep::Char(':'))[2], u32::MAX as int) == Some(uid as int)));
                assert(rest[i - 1] == ls[i]);
                assert forall|j: int| 0 <= j < i - 1 implies !(split_by(#[trigger] rest[j], Sep::Char(':')).len() >= 3
                    && parse_unsigned(split_by(rest[j], Sep::Char(':'))[2], u32::MAX as int) == Some(uid as int)) by {
                    assert(rest[j] == ls[j + 1]);
                }
                assert(first_line_for_uid(rest, uid, i - 1));
            }
        }
        if forall|j: int| 0 <= j < ls.len() ==> !(split_by(#[trigger] ls[j], Sep::Char(':')).len() >= 3
            && parse_unsigned(split_by(ls[j], Sep::Char(':'))[2], u32::MAX as int) == Some(uid as int)) {
            assert(!(split_by(ls[0], Sep::Char(':')).len() >= 3
                && parse_unsigned(split_by(ls[0], Sep::Char(':'))[2], u32::MAX as int) == Some(uid as int)));
            assert forall|j: int| 0 <= j < rest.len() implies !(split_by(#[trigger] rest[j], Sep::Char(':')).len() >= 3
                && parse_unsigned(split_by(rest[j], Sep::Char(':'))[2], u32::MAX as int) == Some(uid as int)) by {
                assert(rest[j] == ls[j + 1]);
            }
        }
    }
}

/// A `/etc/passwd` line `name:password:uid:...` names `name` as the owner of `uid`: when no
/// earlier line has `uid` as its user id, the owner is `name`, whatever follows the id
/// (the group id among it).
pub proof fn law_owner_named_by_user_line(
    ls: Seq<Seq<char>>,
    i: int,
    name: Seq<char>,
    pw: Seq<char>,
    uid: u32,
    rest: Seq<char>,
)
    requires
        0 <= i < ls.len(),
        !name.contains(':'),
        !pw.contains(':'),
        ls[i] == name + seq![':'] + pw + seq![':'] + decimal(uid as nat) + seq![':'] + rest,
        forall|j: int| 0 <= j < i ==> !(split_by(#[trigger] ls[j], Sep::Char(':')).len() >= 3
            && parse_unsigned(split_by(ls[j], Sep::Char(':'))[2], u32::MAX as int) == Some(uid as int)),
    ensures
        passwd_owner(ls, uid) == Some(name),
{
    let d = decimal(uid as nat);
    lemma_decimal_digits(uid as nat);
    assert(!d.contains(':')) by {
        if d.contains(':') {
            let w = choose|w: int| 0 <= w < d.len() && d[w] == ':';
            assert(all_digits(d));
        }
    }
    lemma_split_whole(name, ':');
    lemma_split_whole(pw, ':');
    lemma_split_whole(d, ':');
    lemma_split_concat_at(name, Sep::Char(':'), ':', pw);
    let np = name + seq![':'] + pw;
    lemma_split_concat_at(np, Sep::Char(':'), ':', d);
    let npd = np + seq![':'] + d;
    lemma_split_concat_at(npd, Sep::Char(':'), ':', rest);
    assert(ls[i] == npd + seq![':'] + rest);
    let f = split_by(ls[i], Sep::Char(':'));
    assert(split_by(np, Sep::Char(':')) =~= seq![name, pw]);
    assert(split_by(npd, Sep::Char(':')) =~= seq![name, pw, d]);
    assert(f.len() >= 3 && f[0] == name && f[2] == d);
    law_parse_undoes_decimal(uid as nat, u32::MAX as int);
    assert(first_line_for_uid(ls, uid, i));
    law_owner_from_first_uid_line(ls, uid);
}

/// The name of the owner with id `uid`: from the text of `/etc/passwd`, else the id itself.
pub fn owner_from_passwd(passwd: &str, uid: u32) -> (r: String)
    ensures
        r@ == match passwd_owner(lines(passwd@), uid) { Some(n) => n, None => decimal(uid as nat) },
{
    let v = chars_of(passwd);
    assert(v@.subrange(0, v@.len() as int) =~= v@);
    let ls = line_ranges(&v, 0, v.len());
    let ghost lv = lines(passwd@);
    let mut k: usize = 0;
    assert(lv.skip(0) =~= lv);
    while k < ls.len()
        invariant
            v@ == passwd@,
            lv == lines(v@),
            ranges_are(v@, ls@, lv, 0, v@.len() as int),
            0 <= k <= ls@.len(),
            passwd_owner(lv, uid) == passwd_owner(lv.skip(k as int), uid),
        decreases ls@.len() - k,
    {
        let (a, b) = ls[k];
        assert(0 <= ls@[k as int].0 <= ls@[k as int].1 <= v@.len());
        assert(lv.skip(k as int).len() > 0);
        assert(lv.skip(k as int)[0] == v@.subrange(a as int, b as int));
        let fields = split_ranges(&v, a, b, Sep::Char(':'));
        let ghost fv = split_by(v@.subrange(a as int, b as int), Sep::Char(':'));
        if fields.len() >= 3 {
            let (x, y) = fields[2];
            assert(a <= fields@[2].0 <= fields@[2].1 <= b);
            match parse_u32_range(&v, x, y) {
                Some(n) => {
                    if n == uid {
                        let (p, q) = fields[0];
                        assert(a <= fields@[0].0 <= fields@[0].1 <= b);
                        assert(v@.subrange(x as int, y as int) == fv[2]);
                        assert(v@.subrange(p as int, q as int) == fv[0]);
                        assert(passwd_owner(lv.skip(k as int), uid) == Some(fv[0]));
                        return string_of_range(&v, p, q);
                    }
                },
                None => {},
            }
        }
        assert(lv.skip(k as int).drop_first() =~= lv.skip(k + 1));
        k = k + 1;
    }
    u64_to_string(uid as u64)
}

/// The entry for a file-system root: a directory of size 0 with no time, not hidden, with
/// the permissions its metadata gave (all of them when there was none) and its owner.
pub fn root_file_info(name: String, perms: Option<(bool, bool, bool)>, owner: Option<String>) -> (r: FileInfo)
    ensures
        r.name == name,
        r.path@ == name@,
        r.size == 0,
        r.last_modified is None,
        r.is_directory,
        !r.is_symlink,
        !r.is_hidden,
        (r.readable, r.writable, r.executable) == match perms { Some(p) => p, None => (true, true, true) },
        r.user_name == owner,
{
    let (readable, writable, executable) = match perms {
        Some(p) => p,
        None => (true, true, true),
    };
    let path = name.clone();
    FileInfo {
        name,
        path,
        size: 0,
        last_modified: None,
        is_directory: true,
        is_symlink: false,
        is_hidden: false,
        readable,
        writable,
        executable,
        user_name: owner,
    }
}

} // verus!
