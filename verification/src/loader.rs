//! The applications linked into the kernel: their names and ELF images.
use vstd::prelude::*;

verus! {

/// The applications linked into the kernel: the name and the ELF image of each, in link order.
pub struct AppTable {
    /// names, as bytes without the terminating zero
    pub names: Vec<Vec<u8>>,
    /// ELF images
    pub data: Vec<Vec<u8>>,
}

impl AppTable {
    /// Every application has a name and an image.
    pub open spec fn wf(&self) -> bool {
        self.names@.len() == self.data@.len()
    }

    /// Index of the first application named `name`.
    pub open spec fn first_named(&self, name: Seq<u8>) -> Option<int> {
        if exists|i: int| 0 <= i < self.names@.len() && #[trigger] self.names@[i]@ == name {
            Some(choose|i: int| 0 <= i < self.names@.len() && self.names@[i]@ == name
                && forall|j: int| 0 <= j < i ==> #[trigger] self.names@[j]@ != name)
        } else {
            None
        }
    }
}

/// Number of applications.
pub fn get_num_app(apps: &AppTable) -> (r: usize)
    ensures
        r == apps.data@.len(),
{
    apps.data.len()
}

/// The ELF image of application `app_id`.
pub fn get_app_data(apps: &AppTable, app_id: usize) -> (r: &[u8])
    requires
        app_id < apps.data@.len(),
    ensures
        r@ == apps.data@[app_id as int]@,
{
    apps.data[app_id].as_slice()
}

/// Whether `a` and `b` hold the same bytes.
pub fn bytes_eq(a: &[u8], b: &[u8]) -> (r: bool)
    ensures
        r == (a@ == b@),
{
    if a.len() != b.len() {
        return false;
    }
    let mut i: usize = 0;
    while i < a.len()
        invariant
            a@.len() == b@.len(),
            0 <= i <= a@.len(),
            forall|j: int| 0 <= j < i ==> a@[j] == b@[j],
        decreases a@.len() - i,
    {
        if a[i] != b[i] {
            return false;
        }
        i = i + 1;
    }
    proof {
        assert(a@ =~= b@);
    }
    true
}

/// The UTF-8 encoding of byte `b` read as a character (U+0000 to U+00FF).
pub open spec fn char_utf8(b: u8) -> Seq<u8> {
    if b < 0x80 { seq![b] } else { seq![0xc0u8 | (b >> 6u8), 0x80u8 | (b & 0x3fu8)] }
}

/// The UTF-8 encoding of the string whose characters are the bytes of `s`, one character each.
pub open spec fn latin1_utf8(s: Seq<u8>) -> Seq<u8>
    decreases s.len(),
{
    if s.len() == 0 { Seq::empty() } else { latin1_utf8(s.drop_last()) + char_utf8(s.last()) }
}

/// The name that the bytes `path`, each read as a character, spell, as UTF-8 bytes: how a path
/// read from user memory byte after byte compares with the names of the applications.
pub fn path_to_name(path: &[u8]) -> (r: Vec<u8>)
    ensures
        r@ == latin1_utf8(path@),
{
    let mut r: Vec<u8> = Vec::new();
    let mut i: usize = 0;
    while i < path.len()
        invariant
            0 <= i <= path@.len(),
            r@ == latin1_utf8(path@.take(i as int)),
        decreases path@.len() - i,
    {
        let b = path[i];
        proof {
            assert(path@.take(i + 1).drop_last() =~= path@.take(i as int));
        }
        if b < 0x80 {
            r.push(b);
        } else {
            r.push(0xc0u8 | (b >> 6u8));
            r.push(0x80u8 | (b & 0x3fu8));
        }
        proof {
            assert(r@ =~= latin1_utf8(path@.take(i as int)) + char_utf8(b));
        }
        i = i + 1;
    }
    proof {
        assert(path@.take(i as int) =~= path@);
    }
    r
}

/// The ELF image of the first application named `name`; `None` when there is none.
pub fn get_app_data_by_name<'a>(apps: &'a AppTable, name: &[u8]) -> (r: Option<&'a [u8]>)
    requires
        apps.wf(),
    ensures
        match apps.first_named(name@) {
            Some(i) => r matches Some(d) && d@ == apps.data@[i]@,
            None => r is None,
        },
{
    let n = apps.names.len();
    let mut i: usize = 0;
    while i < n
        invariant
            n == apps.names@.len(),
            apps.wf(),
            0 <= i <= n,
            forall|j: int| 0 <= j < i ==> #[trigger] apps.names@[j]@ != name@,
        decreases n - i,
    {
        if bytes_eq(apps.names[i].as_slice(), name) {
            proof {
                let k = i as int;
                assert(apps.names@[k]@ == name@);
                let c = choose|c: int| 0 <= c < apps.names@.len() && apps.names@[c]@ == name@
                    && forall|j: int| 0 <= j < c ==> #[trigger] apps.names@[j]@ != name@;
                if c < k {
                } else if c > k {
                    assert(apps.names@[k]@ != name@);
                }
                assert(c == k);
            }
            return Some(apps.data[i].as_slice());
        }
        i = i + 1;
    }
    None
}

/// The `num_app` names that follow each other in `blob`, each ended by a zero byte; `None` when
/// the blob ends before the last zero, that is when it holds fewer than `num_app` zero bytes.
pub fn parse_app_names(blob: &[u8], num_app: usize) -> (r: Option<Vec<Vec<u8>>>)
    ensures
        r is Some <==> zero_count(blob@) >= num_app,
        r matches Some(names) ==> names@.len() == num_app
            && forall|k: int| 0 <= k < num_app ==> !(#[trigger] names@[k])@.contains(0u8),
        r matches Some(names) ==> blob@.subrange(0, joined_len(names@) as int) == joined(names@),
{
    let mut names: Vec<Vec<u8>> = Vec::new();
    let mut start: usize = 0;
    let mut k: usize = 0;
    while k < num_app
        invariant
            0 <= k <= num_app,
            names@.len() == k,
            start == joined_len(names@),
            start <= blob@.len(),
            forall|m: int| 0 <= m < k ==> !(#[trigger] names@[m])@.contains(0u8),
            blob@.subrange(0, start as int) == joined(names@),
            zero_count(blob@.subrange(0, start as int)) == k,
        decreases num_app - k,
    {
        let mut end = start;
        while end < blob.len() && blob[end] != 0
            invariant
                start <= end <= blob@.len(),
                forall|j: int| start <= j < end ==> blob@[j] != 0,
                zero_count(blob@.subrange(0, end as int)) == k,
            decreases blob@.len() - end,
        {
            proof {
                lemma_zero_count_step(blob@, end as int);
            }
            end = end + 1;
        }
        if end >= blob.len() {
            proof {
                assert(blob@.subrange(0, end as int) =~= blob@);
            }
            return None;
        }
        proof {
            lemma_zero_count_step(blob@, end as int);
        }
        let mut name: Vec<u8> = Vec::new();
        let mut j = start;
        while j < end
            invariant
                start <= j <= end,
                end < blob@.len(),
                name@ == blob@.subrange(start as int, j as int),
            decreases end - j,
        {
            name.push(blob[j]);
            proof {
                assert(name@ =~= blob@.subrange(start as int, j + 1));
            }
            j = j + 1;
        }
        let ghost names0 = names@;
        proof {
            assert(!name@.contains(0u8)) by {
                if name@.contains(0u8) {
                    let x = choose|x: int| 0 <= x < name@.len() && name@[x] == 0u8;
                    assert(blob@[start + x] == 0);
                }
            }
        }
        names.push(name);
        proof {
            assert(names@.drop_last() =~= names0);
            assert(names@.last() == name);
            assert(joined(names@) == joined(names0) + name@ + seq![0u8]);
            assert(blob@.subrange(0, end + 1) =~= blob@.subrange(0, start as int) + name@ + seq![0u8]);
            assert forall|m: int| 0 <= m < k + 1 implies !(#[trigger] names@[m])@.contains(0u8) by {
                if m < k {
                    assert(names@[m] == names0[m]);
                }
            }
        }
        start = end + 1;
        k = k + 1;
    }
    proof {
        lemma_zero_count_prefix(blob@, start as int);
    }
    Some(names)
}

/// Number of zero bytes in `s`.
pub open spec fn zero_count(s: Seq<u8>) -> nat
    decreases s.len(),
{
    if s.len() == 0 { 0 } else { zero_count(s.drop_last()) + if s.last() == 0u8 { 1nat } else { 0nat } }
}

/// One byte more of a prefix counts one zero more exactly when that byte is zero.
proof fn lemma_zero_count_step(s: Seq<u8>, j: int)
    requires
        0 <= j < s.len(),
    ensures
        zero_count(s.subrange(0, j + 1)) == zero_count(s.subrange(0, j)) + if s[j] == 0u8 { 1nat } else { 0nat },
{
    assert(s.subrange(0, j + 1).drop_last() =~= s.subrange(0, j));
}

/// A prefix holds no more zeros than the whole.
proof fn lemma_zero_count_prefix(s: Seq<u8>, i: int)
    requires
        0 <= i <= s.len(),
    ensures
        zero_count(s.subrange(0, i)) <= zero_count(s),
    decreases s.len() - i,
{
    if i == s.len() {
        assert(s.subrange(0, i) =~= s);
    } else {
        lemma_zero_count_step(s, i);
        lemma_zero_count_prefix(s, i + 1);
    }
}

/// Total length of the names, each with its terminating zero.
pub open spec fn joined_len(names: Seq<Vec<u8>>) -> nat
    decreases names.len(),
{
    if names.len() == 0 { 0 } else { joined_len(names.drop_last()) + names.last()@.len() + 1 }
}

/// The names one after the other, each followed by a zero byte.
pub open spec fn joined(names: Seq<Vec<u8>>) -> Seq<u8>
    decreases names.len(),
{
    if names.len() == 0 { Seq::empty() } else { joined(names.drop_last()) + names.last()@ + seq![0u8] }
}

} // verus!
