//! Which volumes can be indexed, and what they are called.
use crate::text;
use crate::wide;
use vstd::prelude::*;
use vstd::string::*;

verus! {

/// A volume to be indexed.
#[derive(Debug)]
pub struct Volume {
    /// Root path, such as `C:\`.
    pub root: String,
    /// Drive letter, such as `C`.
    pub letter: char,
    /// Name of its file system, such as `NTFS`.
    pub fs: String,
}

impl Clone for Volume {
    fn clone(&self) -> (out: Volume)
        ensures
            out.root@ == self.root@,
            out.letter == self.letter,
            out.fs@ == self.fs@,
    {
        Volume { root: self.root.clone(), letter: self.letter, fs: self.fs.clone() }
    }
}

/// Drive type of Windows: a fixed disk.
pub const DRIVE_FIXED: u32 = 3;

/// The letter of drive number `i`, `A` for 0.
pub open spec fn drive_letter(i: int) -> char {
    ((65 + i) as u32) as char
}

/// The letters of the first `n` drives whose bit is set, in order.
pub open spec fn letters_in(mask: u32, n: nat) -> Seq<char>
    decreases n,
{
    if n == 0 {
        seq![]
    } else {
        let front = letters_in(mask, (n - 1) as nat);
        if mask & (1u32 << ((n - 1) as u32)) != 0 {
            front.push(drive_letter(n - 1))
        } else {
            front
        }
    }
}

/// The letters of all drives in a mask with one bit for each of 26 letters.
pub fn drive_letters(mask: u32) -> (out: Vec<char>)
    ensures
        out@ == letters_in(mask, 26),
{
    let mut out: Vec<char> = Vec::new();
    for i in 0..26u32
        invariant
            out@ == letters_in(mask, i as nat),
    {
        if mask & (1u32 << i) != 0 {
            let c: char = (65 + i as u8) as char;
            proof {
                vstd::utf8::char_u32_cast(c, (65 + i) as u32);
            }
            out.push(c);
        }
    }
    out
}

/// The root path of a drive.
pub fn drive_root(letter: char) -> (out: String)
    ensures
        out@ == seq![letter, ':', '\\'],
{
    let mut out = String::new();
    out.push(letter);
    out.push(':');
    out.push('\\');
    out
}

/// Whether a drive of this type is indexed: only fixed disks are, not removable, optical or
/// network drives.
pub fn is_fixed(drive_type: u32) -> (yes: bool)
    ensures
        yes == (drive_type == DRIVE_FIXED),
        yes == (drive_type == 3),
{
    drive_type == DRIVE_FIXED
}

/// Whether a file system of this name is indexed: only NTFS keeps a change journal.
pub open spec fn is_ntfs(name: Seq<char>) -> bool {
    text::ascii_lowercase(name) == text::ascii_lowercase("NTFS"@)
}

/// What becomes of a drive.
pub enum Verdict {
    /// It is indexed.
    Take(Volume),
    /// It is passed over without a word.
    Ignore,
    /// It is passed over, and the user is told so.
    Skip(String),
}

/// What becomes of a drive of this type. `fs_name` holds the name of its file system as the
/// system wrote it, up to the first zero unit; it is `None` if it could not be read.
pub fn judge_drive(letter: char, drive_type: u32, fs_name: Option<&[u16]>) -> (out: Verdict)
    ensures
        ({
            let root = seq![letter, ':', '\\'];
            if drive_type != DRIVE_FIXED {
                out is Ignore
            } else {
                match fs_name {
                    None => out matches Verdict::Skip(m) && m@ == "警告：无法读取卷信息，跳过 "@
                        + root,
                    Some(units) => {
                        let name = wide::decode_utf16(wide::before_nul(units@));
                        if is_ntfs(name) {
                            &&& out matches Verdict::Take(v)
                            &&& v.root@ == root
                            &&& v.letter == letter
                            &&& v.fs@ == name
                        } else {
                            out matches Verdict::Skip(m) && m@ == "提示："@ + root + " 为 "@ + name
                                + "（非 NTFS），跳过"@
                        }
                    },
                }
            }
        }),
        out is Ignore <==> drive_type != 3,
{
    if !is_fixed(drive_type) {
        return Verdict::Ignore;
    }
    let root = drive_root(letter);
    match fs_name {
        None => {
            let mut m = "警告：无法读取卷信息，跳过 ".to_owned();
            m.append(root.as_str());
            Verdict::Skip(m)
        },
        Some(units) => {
            let fs = wide::from_wide(units);
            if text::eq_ignore_ascii_case(fs.as_str(), "NTFS") {
                Verdict::Take(Volume { root, letter, fs })
            } else {
                let mut m = "提示：".to_owned();
                m.append(root.as_str());
                m.append(" 为 ");
                m.append(fs.as_str());
                m.append("（非 NTFS），跳过");
                Verdict::Skip(m)
            }
        },
    }
}

/// The device path of a volume: `\\.\C:` for `C:\`. An empty root stands for drive C.
pub open spec fn device_path(root: Seq<char>) -> Seq<char> {
    "\\\\.\\"@ + seq![
        if root.len() > 0 {
            root[0]
        } else {
            'C'
        },
        ':',
    ]
}

/// The device path of a volume: `\\.\C:` for `C:\`. An empty root stands for drive C.
pub fn volume_device_path(root: &str) -> (out: String)
    ensures
        out@ == device_path(root@),
{
    let letter: char = if root.unicode_len() > 0 {
        root.get_char(0)
    } else {
        'C'
    };
    let mut out = "\\\\.\\".to_owned();
    out.push(letter);
    out.push(':');
    assert(out@ == device_path(root@));
    out
}

/// A root that was made from a letter leads to the device with that letter.
pub proof fn device_of_drive(letter: char)
    ensures
        device_path(seq![letter, ':', '\\']) == "\\\\.\\"@ + seq![letter, ':'],
{
}

/// A drive is listed if and only if its bit is set.
pub proof fn letters_follow_mask(mask: u32, n: nat, i: int)
    requires
        n <= 26,
        0 <= i < 26,
    ensures
        letters_in(mask, n).contains(drive_letter(i)) <==> i < n && mask & (1u32 << (i as u32)) != 0,
    decreases n,
{
    assert forall|a: int, b: int| 0 <= a < 26 && 0 <= b < 26 && a != b implies drive_letter(a)
        != drive_letter(b) by {
        vstd::utf8::char_u32_cast(drive_letter(a), (65 + a) as u32);
        vstd::utf8::char_u32_cast(drive_letter(b), (65 + b) as u32);
    }
    if n > 0 {
        let front = letters_in(mask, (n - 1) as nat);
        letters_follow_mask(mask, (n - 1) as nat, i);
        let all = letters_in(mask, n);
        if front.contains(drive_letter(i)) {
            let k = choose|k: int| 0 <= k < front.len() && front[k] == drive_letter(i);
            assert(all[k] == drive_letter(i));
        }
        if i == n - 1 && mask & (1u32 << (i as u32)) != 0 {
            assert(all[all.len() - 1] == drive_letter(i));
        }
        if all.contains(drive_letter(i)) {
            let k = choose|k: int| 0 <= k < all.len() && all[k] == drive_letter(i);
            if k < front.len() {
                assert(front[k] == drive_letter(i));
            }
        }
    }
}

/// A file system is taken for NTFS if its name is these four letters, each in either case.
pub proof fn ntfs_is_told_by_its_letters(name: Seq<char>)
    ensures
        is_ntfs(name) <==> {
            &&& name.len() == 4
            &&& name[0] == 'N' || name[0] == 'n'
            &&& name[1] == 'T' || name[1] == 't'
            &&& name[2] == 'F' || name[2] == 'f'
            &&& name[3] == 'S' || name[3] == 's'
        },
{
    reveal_strlit("NTFS");
    let low = text::ascii_lowercase(name);
    let ntfs = text::ascii_lowercase("NTFS"@);
    assert(low.len() == name.len() && ntfs.len() == 4);
    assert forall|c: char, x: char| 'A' <= x && x <= 'Z' implies (#[trigger] text::ascii_lower(c)
        == #[trigger] text::ascii_lower(x) <==> c == x || c as u32 == x as u32 + 32) by {
        let u = ((x as u32) + 32) as u32;
        vstd::utf8::char_u32_cast(u as char, u);
        if 'A' <= c && c <= 'Z' {
            let v = ((c as u32) + 32) as u32;
            vstd::utf8::char_u32_cast(v as char, v);
        }
    }
    assert forall|i: int| 0 <= i < 4 implies #[trigger] ntfs[i] == text::ascii_lower(
        "NTFS"@[i],
    ) by {}
    if name.len() == 4 {
        assert(low[0] == text::ascii_lower(name[0]) && low[1] == text::ascii_lower(name[1]));
        assert(low[2] == text::ascii_lower(name[2]) && low[3] == text::ascii_lower(name[3]));
        assert(ntfs[0] == text::ascii_lower('N') && ntfs[1] == text::ascii_lower('T'));
        assert(ntfs[2] == text::ascii_lower('F') && ntfs[3] == text::ascii_lower('S'));
        if low == ntfs {
            assert(low[0] == ntfs[0] && low[1] == ntfs[1] && low[2] == ntfs[2] && low[3]
                == ntfs[3]);
        } else {
            assert(!(low[0] == ntfs[0] && low[1] == ntfs[1] && low[2] == ntfs[2] && low[3]
                == ntfs[3])) by {
                if low[0] == ntfs[0] && low[1] == ntfs[1] && low[2] == ntfs[2] && low[3]
                    == ntfs[3] {
                    assert(low =~= ntfs);
                }
            }
        }
    }
}

/// Drives are listed by letter from `A` to `Z`, in the order of the alphabet and each once.
pub proof fn letters_are_in_order(mask: u32, n: nat)
    requires
        n <= 26,
    ensures
        forall|i: int|
            0 <= i < letters_in(mask, n).len() ==> 'A' as u32 <= #[trigger] letters_in(
                mask,
                n,
            )[i] as u32 && (letters_in(mask, n)[i] as u32) < 'A' as u32 + n,
        forall|i: int, j: int|
            0 <= i < j < letters_in(mask, n).len() ==> (#[trigger] letters_in(mask, n)[i] as u32)
                < #[trigger] letters_in(mask, n)[j] as u32,
        forall|i: int| 0 <= i < 26 ==> #[trigger] drive_letter(i) as u32 == 'A' as u32 + i,
    decreases n,
{
    assert forall|i: int| 0 <= i < 26 implies #[trigger] drive_letter(i) as u32 == 'A' as u32
        + i by {
        vstd::utf8::char_u32_cast(drive_letter(i), (65 + i) as u32);
    }
    if n > 0 {
        letters_are_in_order(mask, (n - 1) as nat);
        let front = letters_in(mask, (n - 1) as nat);
        let all = letters_in(mask, n);
        assert forall|i: int| 0 <= i < all.len() implies 'A' as u32 <= #[trigger] all[i] as u32
            && (all[i] as u32) < 'A' as u32 + n by {
            if i < front.len() {
                assert(all[i] == front[i]);
            }
        }
        assert forall|i: int, j: int| 0 <= i < j < all.len() implies (#[trigger] all[i] as u32)
            < #[trigger] all[j] as u32 by {
            assert(all[i] == front[i]);
            if j < front.len() {
                assert(all[j] == front[j]);
            }
        }
    }
}

/// Whatever follows the letter in a root, its device is named by the letter alone; without a
/// root it is that of drive C.
pub proof fn device_is_named_by_the_first_letter(letter: char, rest: Seq<char>)
    ensures
        device_path(seq![letter] + rest) == seq!['\\', '\\', '.', '\\', letter, ':'],
        device_path(seq![]) == seq!['\\', '\\', '.', '\\', 'C', ':'],
{
    reveal_strlit("\\\\.\\");
    assert((seq![letter] + rest)[0] == letter);
    assert(device_path(seq![letter] + rest) == seq!['\\', '\\', '.', '\\', letter, ':']);
    assert(device_path(seq![]) == seq!['\\', '\\', '.', '\\', 'C', ':']);
}

} // verus!
