//! Finding the caller of a log call among the frames of a backtrace, and
//! the one-time installation of the logger's settings.
use vstd::prelude::*;

verus! {

/// `pat` occurs in `s`.
pub open spec fn occurs_in(s: Seq<char>, pat: Seq<char>) -> bool {
    exists|i: int| 0 <= i && i + pat.len() <= s.len() && #[trigger] s.subrange(i, i + pat.len()) == pat
}

/// Whether `pat` occurs in `s`.
pub fn contains_text(s: &str, pat: &str) -> (r: bool)
    ensures
        r == occurs_in(s@, pat@),
{
    let n = s.unicode_len();
    let m = pat.unicode_len();
    if m > n {
        return false;
    }
    let mut i: usize = 0;
    while i <= n - m
        invariant
            n == s@.len(),
            m == pat@.len(),
            m <= n,
            i <= n - m + 1,
            forall|k: int| 0 <= k < i ==> #[trigger] s@.subrange(k, k + m) != pat@,
        decreases n - m + 1 - i,
    {
        let mut j: usize = 0;
        let mut same = true;
        while j < m
            invariant
                n == s@.len(),
                m == pat@.len(),
                i + m <= n,
                j <= m,
                same == forall|t: int| 0 <= t < j ==> s@[i + t] == pat@[t],
            decreases m - j,
        {
            if s.get_char(i + j) != pat.get_char(j) {
                same = false;
            }
            j = j + 1;
        }
        if same {
            proof {
                assert(s@.subrange(i as int, i + m) =~= pat@);
            }
            return true;
        }
        proof {
            let t = choose|t: int| 0 <= t < m && s@[i + t] != pat@[t];
            assert(s@.subrange(i as int, i + m)[t] != pat@[t]);
        }
        i = i + 1;
    }
    proof {
        assert forall|k: int| 0 <= k && k + m <= n implies #[trigger] s@.subrange(k, k + m) != pat@ by {
            assert(k < i);
        }
    }
    false
}

/// Some entry of `black_list` occurs in `name`.
pub open spec fn blacklisted(name: Seq<char>, black_list: Seq<String>) -> bool {
    exists|k: int| 0 <= k < black_list.len() && occurs_in(name, #[trigger] black_list[k]@)
}

/// Whether some entry of `black_list` occurs in `name`.
pub fn is_blacklisted(name: &str, black_list: &Vec<String>) -> (r: bool)
    ensures
        r == blacklisted(name@, black_list@),
{
    let mut k: usize = 0;
    while k < black_list.len()
        invariant
            k <= black_list@.len(),
            forall|j: int| 0 <= j < k ==> !occurs_in(name@, #[trigger] black_list@[j]@),
        decreases black_list@.len() - k,
    {
        if contains_text(name, black_list[k].as_str()) {
            return true;
        }
        k = k + 1;
    }
    false
}

/// The `j`-th symbol of a backtrace frame gives the caller: it is the
/// frame's first symbol with a file name, and no entry of `black_list`
/// occurs in that name.
pub open spec fn frame_caller(frame: Seq<(Option<String>, Option<u32>)>, black_list: Seq<String>, j: int) -> bool {
    &&& 0 <= j < frame.len()
    &&& frame[j].0 matches Some(f) && !blacklisted(f@, black_list)
    &&& forall|t: int| 0 <= t < j ==> (#[trigger] frame[t]).0 is None
}

/// Some symbol of the frame gives the caller.
pub open spec fn frame_has_caller(frame: Seq<(Option<String>, Option<u32>)>, black_list: Seq<String>) -> bool {
    exists|j: int| #[trigger] frame_caller(frame, black_list, j)
}

/// The file and line of the caller among the frames of a backtrace, each a
/// list of symbols: in each frame the first symbol with a file name decides
/// (the rest of the frame is skipped when an entry of `black_list` occurs in
/// that name); the first frame whose deciding name is not blacklisted gives
/// the caller; nothing when there is none.
pub fn get_log_info(frames: &Vec<Vec<(Option<String>, Option<u32>)>>, black_list: &Vec<String>) -> (r: (Option<String>, Option<u32>))
    ensures
        r.0 is None ==> r.1 is None && forall|i: int| 0 <= i < frames@.len() ==> !frame_has_caller(#[trigger] frames@[i]@, black_list@),
        r.0 is Some ==> exists|i: int, j: int| {
            &&& 0 <= i < frames@.len()
            &&& #[trigger] frame_caller(frames@[i]@, black_list@, j)
            &&& forall|k: int| 0 <= k < i ==> !frame_has_caller(#[trigger] frames@[k]@, black_list@)
            &&& r.0 == frames@[i]@[j].0
            &&& r.1 == frames@[i]@[j].1
        },
{
    let mut i: usize = 0;
    while i < frames.len()
        invariant
            i <= frames@.len(),
            forall|k: int| 0 <= k < i ==> !frame_has_caller(#[trigger] frames@[k]@, black_list@),
        decreases frames@.len() - i,
    {
        let frame = &frames[i];
        let mut j: usize = 0;
        let mut skipped = false;
        while j < frame.len()
            invariant_except_break
                !skipped,
            invariant
                i < frames@.len(),
                forall|k: int| 0 <= k < i ==> !frame_has_caller(#[trigger] frames@[k]@, black_list@),
                j <= frame@.len(),
                frame@ == frames@[i as int]@,
                forall|t: int| 0 <= t < j ==> (#[trigger] frame@[t]).0 is None,
            ensures
                skipped ==> j < frame@.len() && (frame@[j as int].0 matches Some(f) && blacklisted(f@, black_list@)),
                !skipped ==> forall|t: int| 0 <= t < frame@.len() ==> (#[trigger] frame@[t]).0 is None,
            decreases frame@.len() - j,
        {
            match &frame[j].0 {
                None => {}
                Some(f) => {
                    if !is_blacklisted(f.as_str(), black_list) {
                        let name = f.clone();
                        proof {
                            assert(frame_caller(frames@[i as int]@, black_list@, j as int));
                        }
                        return (Some(name), frame[j].1);
                    }
                    skipped = true;
                    break;
                }
            }
            j = j + 1;
        }
        proof {
            assert(!frame_has_caller(frames@[i as int]@, black_list@)) by {
                if frame_has_caller(frames@[i as int]@, black_list@) {
                    let j2 = choose|j2: int| #[trigger] frame_caller(frames@[i as int]@, black_list@, j2);
                    if skipped {
                        if j2 > j {
                            assert(frame@[j as int].0 is None);
                        }
                    }
                }
            }
        }
        i = i + 1;
    }
    (None, None)
}

/// The settings are not installed yet.
pub const UNINITIALIZED: usize = 0;

/// The settings are being installed.
pub const INITIALIZING: usize = 1;

/// The settings are installed.
pub const INITIALIZED: usize = 2;

/// What installing the settings does, given the state it found.
#[derive(PartialEq, Eq, Structural, Clone, Copy, Debug)]
pub enum SetupStep {
    /// Install them and mark them installed.
    Install,
    /// Wait until the installation under way ends, then fail.
    WaitThenFail,
    /// Fail: they are installed already.
    Fail,
}

/// What installing the settings does when the state was `old_state`: only
/// the first installation succeeds.
pub fn setup_step(old_state: usize) -> (r: SetupStep)
    ensures
        old_state == UNINITIALIZED ==> r == SetupStep::Install,
        old_state == INITIALIZING ==> r == SetupStep::WaitThenFail,
        old_state != UNINITIALIZED && old_state != INITIALIZING ==> r == SetupStep::Fail,
{
    if old_state == UNINITIALIZED {
        SetupStep::Install
    } else if old_state == INITIALIZING {
        SetupStep::WaitThenFail
    } else {
        SetupStep::Fail
    }
}

} // verus!
