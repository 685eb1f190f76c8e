//! Environment bookkeeping that involves no physics: the curriculum of
//! phases and maps, the window of recent frames, and the stacked screen
//! observation.
use vstd::prelude::*;
use vstd::arithmetic::div_mod::lemma_fundamental_div_mod_converse;

verus! {

/// How far an environment has come in its curriculum: phase 1 explores maps
/// without enemies, phase 2 adds combat. A map is replaced after
/// `wins_needed` wins on it; phase 2 starts once phase 1 has seen
/// `phase1_clears` maps cleared that many times.
#[derive(Debug, Clone, Copy, PartialEq, Eq, Structural)]
pub struct Progress {
    pub phase: u32,
    pub phase1_clears: u32,
    pub phase1_cleared: u32,
    pub map_num: u32,
    pub wins_on_map: u32,
    pub wins_needed: u32,
}

/// What an episode's end changed in the curriculum.
#[derive(Debug, Clone, Copy, PartialEq, Eq, Structural)]
pub enum ProgressChange {
    /// The episode was not won; nothing changed.
    NoVictory,
    /// The win was counted on the current map.
    Cleared,
    /// The map has been won often enough: a new map comes next.
    NewMap,
    /// As `NewMap`, and phase 1 is over: phase 2, with enemies, begins.
    CombatPhase,
}

impl Progress {
    /// The progress of a fresh environment: phase 1, map 0, no wins, 100
    /// wins needed per map.
    pub fn new(phase1_clears: u32) -> (p: Progress)
        ensures
            p == (Progress {
                phase: 1,
                phase1_clears,
                phase1_cleared: 0,
                map_num: 0,
                wins_on_map: 0,
                wins_needed: 100,
            }),
    {
        Progress { phase: 1, phase1_clears, phase1_cleared: 0, map_num: 0, wins_on_map: 0, wins_needed: 100 }
    }
}

/// The progress after an episode ends, won or not, and what changed: a win
/// is counted on the map; once the map has `wins_needed` wins a new map
/// starts (map number up, win count back to 0), and in phase 1 the map's
/// wins are added to the phase's total, which at `phase1_clears` times
/// `wins_needed` starts phase 2 on map 0.
pub open spec fn next_progress(p: Progress, victory: bool) -> (Progress, ProgressChange) {
    if !victory {
        (p, ProgressChange::NoVictory)
    } else {
        let wins = (p.wins_on_map + 1) as u32;
        if wins < p.wins_needed {
            (Progress { wins_on_map: wins, ..p }, ProgressChange::Cleared)
        } else {
            let q = Progress { map_num: (p.map_num + 1) as u32, wins_on_map: 0, ..p };
            if p.phase == 1 {
                let cleared = (p.phase1_cleared + p.wins_needed) as u32;
                if cleared >= p.phase1_clears * p.wins_needed {
                    (Progress { phase: 2, map_num: 0, wins_on_map: 0, phase1_cleared: cleared, ..p }, ProgressChange::CombatPhase)
                } else {
                    (Progress { phase1_cleared: cleared, ..q }, ProgressChange::NewMap)
                }
            } else {
                (q, ProgressChange::NewMap)
            }
        }
    }
}

/// The counters that `next_progress` updates stay within `u32`.
pub open spec fn progress_fits(p: Progress, victory: bool) -> bool {
    victory ==> {
        &&& p.wins_on_map < u32::MAX
        &&& (p.wins_on_map + 1 >= p.wins_needed ==> {
            &&& p.map_num < u32::MAX
            &&& (p.phase == 1 ==> p.phase1_cleared + p.wins_needed <= u32::MAX && p.phase1_clears * p.wins_needed
                <= u32::MAX)
        })
    }
}

impl Progress {
    /// Whether recording an episode end keeps every counter within `u32`
    /// (see `progress_fits`).
    pub fn can_record(&self, victory: bool) -> (ok: bool)
        ensures
            ok == progress_fits(*self, victory),
    {
        if !victory {
            return true;
        }
        if self.wins_on_map == u32::MAX {
            return false;
        }
        if self.wins_on_map + 1 < self.wins_needed {
            return true;
        }
        if self.map_num == u32::MAX {
            return false;
        }
        if self.phase != 1 {
            return true;
        }
        let cleared = self.phase1_cleared as u64 + self.wins_needed as u64;
        proof {
            assert(self.phase1_clears * self.wins_needed <= 0xffff_fffe_0000_0001) by (nonlinear_arith)
                requires
                    self.phase1_clears <= 0xffff_ffff,
                    self.wins_needed <= 0xffff_ffff,
            ;
        }
        let target = self.phase1_clears as u64 * self.wins_needed as u64;
        cleared <= u32::MAX as u64 && target <= u32::MAX as u64
    }

    /// Records the end of an episode (`victory` when it ended on the exit)
    /// and reports what changed; see `next_progress`.
    pub fn record_episode_end(&mut self, victory: bool) -> (change: ProgressChange)
        requires
            progress_fits(*old(self), victory),
        ensures
            (*final(self), change) == next_progress(*old(self), victory),
    {
        if !victory {
            return ProgressChange::NoVictory;
        }
        self.wins_on_map = self.wins_on_map + 1;
        if self.wins_on_map < self.wins_needed {
            return ProgressChange::Cleared;
        }
        self.map_num = self.map_num + 1;
        self.wins_on_map = 0;
        if self.phase == 1 {
            self.phase1_cleared = self.phase1_cleared + self.wins_needed;
            if self.phase1_cleared >= self.phase1_clears * self.wins_needed {
                self.phase = 2;
                self.map_num = 0;
                self.wins_on_map = 0;
                return ProgressChange::CombatPhase;
            }
        }
        ProgressChange::NewMap
    }
}

/// The phase never goes back: after any episode end it is at least what it
/// was, and a phase of 1 or 2 stays 1 or 2.
pub proof fn lemma_phase_never_decreases(p: Progress, victory: bool)
    ensures
        next_progress(p, victory).0.phase >= p.phase,
        (p.phase == 1 || p.phase == 2) ==> (next_progress(p, victory).0.phase == 1 || next_progress(p, victory).0.phase
            == 2),
{
}

/// The number of wins needed per map never changes, and the wins counted on
/// the current map stay below it.
pub proof fn lemma_wins_stay_below_needed(p: Progress, victory: bool)
    requires
        p.wins_on_map < p.wins_needed,
    ensures
        next_progress(p, victory).0.wins_needed == p.wins_needed,
        next_progress(p, victory).0.wins_on_map < next_progress(p, victory).0.wins_needed,
{
}

/// Phase 2 is entered at most once: an episode end in phase 2 never reports
/// the start of the combat phase again, and the curriculum counters of
/// phase 1 stay as they were.
pub proof fn lemma_combat_phase_starts_once(p: Progress, victory: bool)
    requires
        p.phase == 2,
    ensures
        !(next_progress(p, victory).1 is CombatPhase),
        next_progress(p, victory).0.phase == 2,
        next_progress(p, victory).0.phase1_cleared == p.phase1_cleared,
{
}

/// What an episode's end does to the curriculum, field by field, from any
/// progress with phase 1 or 2 and fewer wins on the map than needed: the
/// phase stays 1 or 2 and never goes back, and the wins stay below the
/// number needed, which never changes. A lost episode changes nothing. A win
/// is counted on the map; when that reaches the number needed the wins go
/// back to 0, the map number goes up by one and, in phase 1, the map's wins
/// are added to the phase's total; once that total reaches `phase1_clears`
/// maps' worth, phase 2 starts on map 0 and `CombatPhase` is reported (and
/// only then). The counters are `u32`: the map number and the phase total
/// are stated as `u32` sums, which `record_episode_end` only forms where
/// they fit (`progress_fits`).
pub proof fn lemma_episode_end_curriculum(p: Progress, victory: bool)
    requires
        p.phase == 1 || p.phase == 2,
        p.wins_on_map < p.wins_needed,
    ensures
        ({
            let (q, change) = next_progress(p, victory);
            &&& q.phase == 1 || q.phase == 2
            &&& q.phase >= p.phase
            &&& q.wins_on_map < q.wins_needed
            &&& q.wins_needed == p.wins_needed
            &&& q.phase1_clears == p.phase1_clears
            &&& (change is CombatPhase <==> (p.phase == 1 && q.phase == 2))
            &&& (!victory ==> q == p && change is NoVictory)
            &&& (victory && p.wins_on_map + 1 < p.wins_needed ==> q == Progress { wins_on_map: (p.wins_on_map + 1) as u32, ..p }
                && change is Cleared)
            &&& (victory && p.wins_on_map + 1 >= p.wins_needed ==> {
                let cleared: u32 = if p.phase == 1 { (p.phase1_cleared + p.wins_needed) as u32 } else { p.phase1_cleared };
                &&& q.wins_on_map == 0
                &&& q.phase1_cleared == cleared
                &&& if p.phase == 1 && cleared >= p.phase1_clears * p.wins_needed {
                    q.phase == 2 && q.map_num == 0 && change is CombatPhase
                } else {
                    q.phase == p.phase && q.map_num == (p.map_num + 1) as u32 && change is NewMap
                }
            })
        }),
{
}

/// The window never grows beyond `frame_stack` frames: from a window of at
/// most `frame_stack` frames it grows by one until it holds `frame_stack`,
/// always ends with the newest frame (when `frame_stack` is positive), and
/// keeps the other frames in their order.
pub proof fn lemma_window_bounded(window: Seq<Vec<u8>>, frame: Vec<u8>, frame_stack: int)
    requires
        window.len() <= frame_stack,
    ensures
        pushed_window(window, frame, frame_stack).len() == if window.len() < frame_stack {
            window.len() + 1int
        } else {
            frame_stack
        },
        frame_stack >= 1 ==> pushed_window(window, frame, frame_stack).last() == frame,
        window.len() < frame_stack ==> pushed_window(window, frame, frame_stack).drop_last() == window,
        window.len() == frame_stack >= 1 ==> pushed_window(window, frame, frame_stack).drop_last() == window.drop_first(),
{
    let w = pushed_window(window, frame, frame_stack);
    if window.len() < frame_stack {
        assert(w.drop_last() =~= window);
    } else if frame_stack >= 1 {
        assert(w.drop_last() =~= window.drop_first());
    }
}

/// The window of recent frames after `frame` arrives: the frame is added at
/// the end, and the oldest frame dropped when the window would hold more
/// than `frame_stack` frames.
pub open spec fn pushed_window(window: Seq<Vec<u8>>, frame: Vec<u8>, frame_stack: int) -> Seq<Vec<u8>> {
    if window.len() + 1 > frame_stack {
        window.push(frame).drop_first()
    } else {
        window.push(frame)
    }
}

/// Adds the newest frame to the window of recent frames; see
/// `pushed_window`.
pub fn push_frame(buffer: &mut Vec<Vec<u8>>, frame: Vec<u8>, frame_stack: usize)
    requires
        old(buffer)@.len() < usize::MAX,
    ensures
        final(buffer)@ == pushed_window(old(buffer)@, frame, frame_stack as int),
{
    buffer.push(frame);
    if buffer.len() > frame_stack {
        buffer.remove(0);
        assert(buffer@ =~= old(buffer)@.push(frame).drop_first());
    }
}

/// Fills the window with `frame_stack` copies of one frame, as after a reset.
pub fn fill_frames(buffer: &mut Vec<Vec<u8>>, frame: &Vec<u8>, frame_stack: usize)
    ensures
        final(buffer)@.len() == frame_stack,
        forall|i: int| 0 <= i < frame_stack ==> (#[trigger] final(buffer)@[i])@ == frame@,
{
    buffer.clear();
    let mut i: usize = 0;
    while i < frame_stack
        invariant
            i <= frame_stack,
            buffer@.len() == i,
            forall|k: int| 0 <= k < i ==> (#[trigger] buffer@[k])@ == frame@,
        decreases frame_stack - i,
    {
        let copy = frame.clone();
        proof {
            assert(copy@ =~= frame@);
        }
        buffer.push(copy);
        i = i + 1;
    }
}

/// Byte `k` of the stacked screen of `h` by `w` frames: planes of `h * w`
/// bytes, three per frame (red, green, blue), frame by frame; a plane of a
/// missing frame, or of a frame too short for the pixel, reads 0.
pub open spec fn stacked_byte(frames: Seq<Vec<u8>>, h: int, w: int, k: int) -> u8 {
    let plane = h * w;
    let i = k / (3 * plane);
    let r = k % (3 * plane);
    let ch = r / plane;
    let p = r % plane;
    if i < frames.len() && p * 3 + 2 < frames[i]@.len() {
        frames[i]@[p * 3 + ch]
    } else {
        0
    }
}

proof fn lemma_decode_stacked(k: int, h: int, w: int, i: int, ch: int, y: int, x: int)
    requires
        0 < h,
        0 < w,
        0 <= i,
        0 <= ch < 3,
        0 <= y < h,
        0 <= x < w,
        k == ((i * 3 + ch) * h + y) * w + x,
    ensures
        k / (3 * (h * w)) == i,
        (k % (3 * (h * w))) / (h * w) == ch,
        (k % (3 * (h * w))) % (h * w) == y * w + x,
{
    assert(k == i * (3 * (h * w)) + (ch * (h * w) + (y * w + x))) by (nonlinear_arith)
        requires
            k == ((i * 3 + ch) * h + y) * w + x,
    ;
    assert(0 <= y * w + x < h * w) by (nonlinear_arith)
        requires
            0 <= y < h,
            0 <= x < w,
    ;
    assert(0 <= ch * (h * w) + (y * w + x) < 3 * (h * w)) by (nonlinear_arith)
        requires
            0 <= ch < 3,
            0 <= y * w + x < h * w,
    ;
    lemma_fundamental_div_mod_converse(k, 3 * (h * w), i, ch * (h * w) + (y * w + x));
    lemma_fundamental_div_mod_converse(ch * (h * w) + (y * w + x), h * w, ch, y * w + x);
}

/// The screen observation: the frames of the window (each `h` rows of `w`
/// RGB pixels) laid out as `3 * frame_stack` planes of `h * w` bytes, one per
/// colour channel of each frame (see `stacked_byte`).
pub fn stack_frames(frames: &Vec<Vec<u8>>, frame_stack: usize, h: usize, w: usize) -> (screen: Vec<u8>)
    requires
        frames@.len() <= frame_stack,
        frame_stack * 3 * h * w <= isize::MAX,
    ensures
        screen@.len() == frame_stack * 3 * h * w,
        forall|k: int| 0 <= k < screen@.len() ==> #[trigger] screen@[k] == stacked_byte(frames@, h as int, w as int, k),
{
    let ghost fs = frames@;
    let mut screen: Vec<u8> = Vec::new();
    if h == 0 || w == 0 {
        assert(frame_stack * 3 * h * w == 0) by (nonlinear_arith)
            requires
                h == 0 || w == 0,
        ;
        return screen;
    }
    let n = frames.len();
    let mut i: usize = 0;
    assert(0 * 3 * h * w == 0) by (nonlinear_arith);
    while i < frame_stack
        invariant
            0 < h,
            0 < w,
            n == frames@.len(),
            n <= frame_stack,
            i <= frame_stack,
            frame_stack * 3 * h * w <= isize::MAX,
            screen@.len() == i * 3 * h * w,
            forall|k: int| 0 <= k < screen@.len() ==> #[trigger] screen@[k] == stacked_byte(frames@, h as int, w as int, k),
        decreases frame_stack - i,
    {
        let mut ch: usize = 0;
        while ch < 3
            invariant
                0 < h,
                0 < w,
                n == frames@.len(),
                n <= frame_stack,
                i < frame_stack,
                ch <= 3,
                frame_stack * 3 * h * w <= isize::MAX,
                screen@.len() == (i * 3 + ch) * h * w,
                forall|k: int| 0 <= k < screen@.len() ==> #[trigger] screen@[k] == stacked_byte(frames@, h as int, w as int, k),
            decreases 3 - ch,
        {
            let mut y: usize = 0;
            while y < h
                invariant
                    0 < h,
                    0 < w,
                    n == frames@.len(),
                    n <= frame_stack,
                    i < frame_stack,
                    ch < 3,
                    y <= h,
                    frame_stack * 3 * h * w <= isize::MAX,
                    screen@.len() == ((i * 3 + ch) * h + y) * w,
                    forall|k: int| 0 <= k < screen@.len() ==> #[trigger] screen@[k] == stacked_byte(frames@, h as int, w as int, k),
                decreases h - y,
            {
                let mut x: usize = 0;
                while x < w
                    invariant
                        0 < h,
                        0 < w,
                        n == frames@.len(),
                        n <= frame_stack,
                        i < frame_stack,
                        ch < 3,
                        y < h,
                        x <= w,
                        frame_stack * 3 * h * w <= isize::MAX,
                        screen@.len() == ((i * 3 + ch) * h + y) * w + x,
                        forall|k: int| 0 <= k < screen@.len() ==> #[trigger] screen@[k] == stacked_byte(frames@, h as int, w as int, k),
                    decreases w - x,
                {
                    proof {
                        assert(((i * 3 + ch) * h + y) * w + x < frame_stack * 3 * h * w) by (nonlinear_arith)
                            requires
                                i < frame_stack,
                                ch < 3,
                                y < h,
                                x < w,
                        ;
                        assert(y * w + x < h * w) by (nonlinear_arith)
                            requires
                                y < h,
                                x < w,
                        ;
                        assert((y * w + x) * 3 + 2 < frame_stack * 3 * h * w) by (nonlinear_arith)
                            requires
                                i < frame_stack,
                                y * w + x < h * w,
                                0 < h,
                                0 < w,
                        ;
                    }
                    let v: u8 = if i < n {
                        let src_idx = (y * w + x) * 3;
                        if src_idx + 2 < frames[i].len() {
                            frames[i][src_idx + ch]
                        } else {
                            0
                        }
                    } else {
                        0
                    };
                    proof {
                        lemma_decode_stacked(screen@.len() as int, h as int, w as int, i as int, ch as int, y as int, x as int);
                    }
                    let ghost before = screen@;
                    screen.push(v);
                    assert forall|k: int| 0 <= k < screen@.len() implies #[trigger] screen@[k] == stacked_byte(
                        frames@,
                        h as int,
                        w as int,
                        k,
                    ) by {
                        if k < before.len() {
                            assert(screen@[k] == before[k]);
                        }
                    }
                    x = x + 1;
                }
                assert(((i * 3 + ch) * h + y) * w + w == ((i * 3 + ch) * h + (y + 1)) * w) by (nonlinear_arith);
                y = y + 1;
            }
            assert(((i * 3 + ch) * h + h) * w == (i * 3 + ch + 1) * h * w) by (nonlinear_arith);
            ch = ch + 1;
        }
        assert((i * 3 + 3) * h * w == (i + 1) * 3 * h * w) by (nonlinear_arith);
        i = i + 1;
    }
    screen
}

} // verus!
