//! The layout of one named masked view, and the reading of the mount table.
use vstd::prelude::*;
use vstd::string::StringExecFns;

verus! {

/// `entry` inside directory `dir`.
pub open spec fn joined(dir: Seq<char>, entry: Seq<char>) -> Seq<char> {
    if dir.len() > 0 && dir.last() == '/' {
        dir + entry
    } else {
        dir + seq!['/'] + entry
    }
}

/// Joins a directory and an entry name with one separator.
pub fn join_path(dir: &str, entry: &str) -> (r: String)
    ensures
        r@ == joined(dir@, entry@),
{
    let mut r = String::from_str(dir);
    let n = dir.unicode_len();
    if n == 0 || dir.get_char(n - 1) != '/' {
        let sep = "/";
        proof {
            reveal_strlit("/");
        }
        r.append(sep);
    }
    r.append(entry);
    r
}

/// Where one named view keeps its directories, and the store it filters.
pub struct ViewLayout {
    /// The directory of this view: the overlays' root joined with the view's name.
    pub base: String,
    /// The raw store directory.
    pub store_dir: String,
}

impl ViewLayout {
    /// The layout of the view `name` under `root`, over the store at `store_dir`.
    pub fn new(root: &str, name: &str, store_dir: &str) -> (r: ViewLayout)
        ensures
            r.base@ == joined(root@, name@),
            r.store_dir@ == store_dir@,
    {
        ViewLayout { base: join_path(root, name), store_dir: String::from_str(store_dir) }
    }

    /// The masking directory, which holds one marker per hidden path.
    pub fn mask_dir(&self) -> (r: String)
        ensures
            r@ == joined(self.base@, "upper"@),
    {
        join_path(self.base.as_str(), "upper")
    }

    /// The directory where the merged view is mounted.
    pub fn merged_dir(&self) -> (r: String)
        ensures
            r@ == joined(self.base@, "merged"@),
    {
        join_path(self.base.as_str(), "merged")
    }

    /// The scratch work directory of the view.
    pub fn work_dir(&self) -> (r: String)
        ensures
            r@ == joined(self.base@, "work"@),
    {
        join_path(self.base.as_str(), "work")
    }

    /// The prefix that every fully qualified store path begins with.
    pub fn store_prefix(&self) -> (r: String)
        ensures
            r@ == joined(self.store_dir@, Seq::<char>::empty()),
    {
        let empty = "";
        proof {
            reveal_strlit("");
        }
        join_path(self.store_dir.as_str(), empty)
    }

    /// The path of the marker that hides store path `name`.
    pub fn marker_path(&self, name: &str) -> (r: String)
        ensures
            r@ == joined(joined(self.base@, "upper"@), name@),
    {
        let dir = self.mask_dir();
        join_path(dir.as_str(), name)
    }

    /// The mount option that stacks the masking directory above the store.
    pub fn lower_layers(&self) -> (r: String)
        ensures
            r@ == "lowerdir="@ + joined(self.base@, "upper"@) + ":"@ + self.store_dir@,
    {
        let mut r = String::from_str("lowerdir=");
        let dir = self.mask_dir();
        r.append(dir.as_str());
        r.append(":");
        r.append(self.store_dir.as_str());
        r
    }
}

/// Whether `path` occurs in `table` as a run of consecutive bytes.
pub open spec fn occurs_in(table: Seq<u8>, path: Seq<u8>) -> bool {
    exists|i: int|
        0 <= i && i + path.len() <= table.len() && #[trigger] table.subrange(i, i + path.len())
            == path
}

/// Whether the mount table's text names `path`: a search for its bytes.
pub fn listed_in_mount_table(table: &[u8], path: &[u8]) -> (r: bool)
    ensures
        r == occurs_in(table@, path@),
{
    let n = table.len();
    let m = path.len();
    if m > n {
        assert(!occurs_in(table@, path@));
        return false;
    }
    let mut i: usize = 0;
    while i <= n - m
        invariant
            m <= n,
            n == table@.len(),
            m == path@.len(),
            i <= n - m + 1,
            forall|k: int| 0 <= k < i ==> #[trigger] table@.subrange(k, k + m) != path@,
        decreases n - m + 1 - i,
    {
        let mut j: usize = 0;
        while j < m && table[i + j] == path[j]
            invariant
                m <= n,
                n == table@.len(),
                m == path@.len(),
                i <= n - m,
                j <= m,
                forall|k: int| 0 <= k < j ==> table@[i + k] == path@[k],
            decreases m - j,
        {
            j = j + 1;
        }
        if j == m {
            assert(table@.subrange(i as int, i + m) =~= path@);
            return true;
        }
        assert(table@.subrange(i as int, i + m)[j as int] != path@[j as int]);
        i = i + 1;
    }
    assert forall|k: int| 0 <= k && k + m <= n implies #[trigger] table@.subrange(k, k + m) != path@ by {
        assert(k < i);
    }
    false
}

} // verus!
