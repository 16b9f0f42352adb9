//! Droplets of an epoch kept one per file: the names of the directory and of
//! the files, and the store's counters. Reading and writing the files is the
//! caller's part.
use vstd::prelude::*;

verus! {

/// The decimal character of a digit below ten.
pub open spec fn digit_char(d: nat) -> char {
    if d == 0 {
        '0'
    } else if d == 1 {
        '1'
    } else if d == 2 {
        '2'
    } else if d == 3 {
        '3'
    } else if d == 4 {
        '4'
    } else if d == 5 {
        '5'
    } else if d == 6 {
        '6'
    } else if d == 7 {
        '7'
    } else if d == 8 {
        '8'
    } else {
        '9'
    }
}

/// The decimal digits of `n`, most significant first, without leading zeros.
pub open spec fn decimal_chars(n: nat) -> Seq<char>
    decreases n,
{
    if n < 10 {
        seq![digit_char(n)]
    } else {
        decimal_chars(n / 10).push(digit_char(n % 10))
    }
}

/// The decimal digits of `n` with zeros in front, at least `width` characters.
pub open spec fn zero_padded(n: nat, width: nat) -> Seq<char> {
    let d = decimal_chars(n);
    if d.len() >= width {
        d
    } else {
        Seq::new((width - d.len()) as nat, |i: int| '0') + d
    }
}

/// The name of the directory of an epoch's droplets inside `dir`.
pub open spec fn epoch_dir_name(dir: Seq<char>, epoch: nat) -> Seq<char> {
    dir + "/epoch"@ + zero_padded(epoch, 6)
}

/// The name of the file of droplet `key` inside the epoch directory `dir`.
pub open spec fn droplet_file_name(dir: Seq<char>, key: nat) -> Seq<char> {
    dir + "/drp"@ + zero_padded(key, 6) + ".dat"@
}

/// The one-character string of a digit.
fn digit_str(d: usize) -> (r: &'static str)
    requires
        d < 10,
    ensures
        r@ == seq![digit_char(d as nat)],
{
    if d == 0 {
        proof {
            reveal_strlit("0");
        }
        "0"
    } else if d == 1 {
        proof {
            reveal_strlit("1");
        }
        "1"
    } else if d == 2 {
        proof {
            reveal_strlit("2");
        }
        "2"
    } else if d == 3 {
        proof {
            reveal_strlit("3");
        }
        "3"
    } else if d == 4 {
        proof {
            reveal_strlit("4");
        }
        "4"
    } else if d == 5 {
        proof {
            reveal_strlit("5");
        }
        "5"
    } else if d == 6 {
        proof {
            reveal_strlit("6");
        }
        "6"
    } else if d == 7 {
        proof {
            reveal_strlit("7");
        }
        "7"
    } else if d == 8 {
        proof {
            reveal_strlit("8");
        }
        "8"
    } else {
        proof {
            reveal_strlit("9");
        }
        "9"
    }
}

/// Appends the decimal digits of `n`.
fn push_decimal(s: &mut String, n: usize)
    ensures
        final(s)@ == old(s)@ + decimal_chars(n as nat),
    decreases n,
{
    if n >= 10 {
        push_decimal(s, n / 10);
    }
    s.append(digit_str(n % 10));
    proof {
        if n >= 10 {
            assert(decimal_chars(n as nat) == decimal_chars((n / 10) as nat).push(
                digit_char((n % 10) as nat),
            ));
        }
        assert(final(s)@ =~= old(s)@ + decimal_chars(n as nat));
    }
}

/// Number of decimal digits of `n`.
fn decimal_len(n: usize) -> (r: usize)
    ensures
        r == decimal_chars(n as nat).len(),
        r <= 20,
    decreases n,
{
    if n < 10 {
        1
    } else {
        let r = decimal_len(n / 10) + 1;
        proof {
            if r > 20 {
                lemma_twenty_digits(n as nat);
            }
        }
        r
    }
}

/// A number below 2^64 has at most 20 decimal digits.
proof fn lemma_twenty_digits(n: nat)
    requires
        n <= 0xFFFF_FFFF_FFFF_FFFF,
    ensures
        decimal_chars(n).len() <= 20,
{
    reveal_with_fuel(pow10, 21);
    lemma_decimal_len_bound(n, 20);
}

/// A number below 10^k has at most k decimal digits.
proof fn lemma_decimal_len_bound(n: nat, k: nat)
    requires
        k >= 1,
        n < pow10(k),
    ensures
        decimal_chars(n).len() <= k,
    decreases k,
{
    if n >= 10 {
        assert(n / 10 < pow10((k - 1) as nat)) by (nonlinear_arith)
            requires
                n < pow10(k),
                pow10(k) == 10 * pow10((k - 1) as nat),
                k >= 1,
        ;
        if k == 1 {
            assert(pow10(0) == 1);
        } else {
            lemma_decimal_len_bound(n / 10, (k - 1) as nat);
        }
    }
}

/// Ten to the power `k`.
spec fn pow10(k: nat) -> nat
    decreases k,
{
    if k == 0 {
        1
    } else {
        10 * pow10((k - 1) as nat)
    }
}

/// Appends the decimal digits of `n` with zeros in front, at least `width`
/// characters in all.
fn push_zero_padded(s: &mut String, n: usize, width: usize)
    ensures
        final(s)@ == old(s)@ + zero_padded(n as nat, width as nat),
{
    let len = decimal_len(n);
    let mut pad: usize = len;
    let ghost start = s@;
    while pad < width
        invariant
            len <= pad <= if len <= width {
                width
            } else {
                len
            },
            s@ == start + Seq::new((pad - len) as nat, |i: int| '0'),
        decreases width - pad,
    {
        proof {
            reveal_strlit("0");
        }
        let ghost before = s@;
        s.append("0");
        proof {
            assert(s@ =~= start + Seq::new((pad + 1 - len) as nat, |i: int| '0'));
        }
        pad += 1;
    }
    push_decimal(s, n);
    proof {
        if len >= width {
            assert(s@ =~= start + zero_padded(n as nat, width as nat));
        } else {
            assert(pad == width);
            assert(s@ =~= start + zero_padded(n as nat, width as nat));
        }
    }
}

/// The directory of an epoch's droplets: `dir`, then `/epoch` and the epoch
/// number in six or more digits.
pub fn epoch_dir(dir: &str, epoch: usize) -> (r: String)
    ensures
        r@ == epoch_dir_name(dir@, epoch as nat),
{
    let mut s = String::from_str(dir);
    s.append("/epoch");
    push_zero_padded(&mut s, epoch, 6);
    proof {
        assert(s@ =~= epoch_dir_name(dir@, epoch as nat));
    }
    s
}

/// Storage of an epoch's droplets, one file each, in the directory `dir`.
pub struct FileStorage {
    dir: String,
    counter: usize,
    max_file_size: usize,
}

impl FileStorage {
    /// The epoch directory.
    pub closed spec fn dir_spec(&self) -> Seq<char> {
        self.dir@
    }

    /// Number of droplets stored.
    pub closed spec fn count_spec(&self) -> usize {
        self.counter
    }

    /// Largest droplet data size stored.
    pub closed spec fn max_size_spec(&self) -> usize {
        self.max_file_size
    }

    /// The storage of the epoch directory `epoch_dir`, which already holds
    /// `files_count` droplet files.
    pub fn new(epoch_dir: String, files_count: usize) -> (r: Self)
        ensures
            r.dir_spec() == epoch_dir@,
            r.count_spec() == files_count,
            r.max_size_spec() == 0,
    {
        FileStorage { dir: epoch_dir, counter: files_count, max_file_size: 0 }
    }

    /// The epoch directory.
    pub fn dir(&self) -> (r: &str)
        ensures
            r@ == self.dir_spec(),
    {
        self.dir.as_str()
    }

    /// The file of droplet `key`: `drp`, the key in six or more digits, and
    /// `.dat`, inside the epoch directory.
    pub fn filepath(&self, key: usize) -> (r: String)
        ensures
            r@ == droplet_file_name(self.dir_spec(), key as nat),
    {
        let mut s = self.dir.clone();
        s.append("/drp");
        push_zero_padded(&mut s, key, 6);
        s.append(".dat");
        proof {
            assert(s@ =~= droplet_file_name(self.dir_spec(), key as nat));
        }
        s
    }

    /// Counts a droplet written to its file, whose data size is `droplet_size`.
    pub fn record_insert(&mut self, droplet_size: usize)
        requires
            old(self).count_spec() < usize::MAX,
        ensures
            final(self).dir_spec() == old(self).dir_spec(),
            final(self).count_spec() == old(self).count_spec() + 1,
            final(self).max_size_spec() == if droplet_size > old(self).max_size_spec() {
                droplet_size
            } else {
                old(self).max_size_spec()
            },
    {
        self.counter = self.counter + 1;
        if droplet_size > self.max_file_size {
            self.max_file_size = droplet_size;
        }
    }

    /// Returns the number of droplets stored.
    pub fn count(&self) -> (r: usize)
        ensures
            r == self.count_spec(),
    {
        self.counter
    }

    /// Returns the largest droplet data size stored.
    pub fn max_size(&self) -> (r: usize)
        ensures
            r == self.max_size_spec(),
    {
        self.max_file_size
    }

    /// Empties the storage; the caller removes the directory, whose name it
    /// gets back.
    pub fn truncate(self) -> (r: String)
        ensures
            r@ == self.dir_spec(),
    {
        self.dir
    }
}

} // verus!
