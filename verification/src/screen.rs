//! What the lyric view shows and when it redraws: the decisions of the
//! program's main loop, apart from the terminal and the media player.

use vstd::prelude::*;

use crate::layout::{fits, FRAME_ROWS, MIN_HEIGHT, MIN_WIDTH};
use crate::text::chars_of;

verus! {

/// How long, in nanoseconds, the player's full state is kept before it is
/// fetched again; in between only the playback position is refreshed.
pub const FETCH_INTERVAL_NANOS: u128 = 1_000_000_000;

/// The state of the lyric view.
pub struct Screen {
    /// The number of the lyric line that is current (0: none yet).
    pub current_line: usize,
    /// Artist and title of the song that is playing, if any.
    pub song_info: Option<(String, String)>,
    /// The whole screen, frame included, must be drawn again.
    pub redraw_screen: bool,
    /// The lyric rows must be drawn again.
    pub redraw_lyrics: bool,
    /// The title must be drawn again.
    pub redraw_title: bool,
    /// Rows available for lyrics.
    pub visible_lines: u16,
}

/// What to draw in one pass.
pub enum RenderPlan {
    /// The terminal is too small: show only a notice.
    TooSmall,
    /// Draw the parts that are marked.
    Draw { borders: bool, title: bool, lyrics: bool },
}

/// Input that the view reacts to.
pub enum Input {
    /// A key press or release, with the character of the key if it has one.
    Key { ch: Option<char>, pressed: bool },
    /// The terminal changed size.
    Resize,
    /// Anything else.
    Other,
}

/// Whether two texts are equal, character for character.
pub fn same_text(a: &str, b: &str) -> (r: bool)
    ensures
        r == (a@ == b@),
{
    let x = chars_of(a);
    let y = chars_of(b);
    if x.len() != y.len() {
        return false;
    }
    let mut i: usize = 0;
    while i < x.len()
        invariant
            i <= x@.len() == y@.len(),
            x@ == a@,
            y@ == b@,
            forall|j: int| 0 <= j < i ==> x@[j] == y@[j],
        decreases x.len() - i,
    {
        if x[i] != y[i] {
            assert(x@[i as int] != y@[i as int]);
            return false;
        }
        i += 1;
    }
    assert(x@ =~= y@);
    true
}

/// Whether two song descriptions (artist, title) are equal.
pub fn same_song(a: &Option<(String, String)>, b: &Option<(String, String)>) -> (r: bool)
    ensures
        r == (a matches Some(x) && b matches Some(y) && x.0@ == y.0@ && x.1@ == y.1@ || a is None
            && b is None),
{
    match (a, b) {
        (Some(x), Some(y)) => same_text(x.0.as_str(), y.0.as_str()) && same_text(
            x.1.as_str(),
            y.1.as_str(),
        ),
        (None, None) => true,
        _ => false,
    }
}

/// Whether the player's full state is due to be fetched again, `elapsed`
/// nanoseconds after the last full fetch.
pub fn needs_full_fetch(elapsed_nanos: u128) -> (r: bool)
    ensures
        r == (elapsed_nanos > FETCH_INTERVAL_NANOS),
{
    elapsed_nanos > FETCH_INTERVAL_NANOS
}

/// Whether the active player found now replaces the one followed so far:
/// when there was none, or when it has another identity.
pub fn player_changed(old_identity: Option<&str>, new_identity: &str) -> (r: bool)
    ensures
        r == (old_identity matches Some(o) ==> o@ != new_identity@),
{
    match old_identity {
        Some(o) => !same_text(o, new_identity),
        None => true,
    }
}

impl Screen {
    /// The view at start: nothing playing, no line current, the whole screen
    /// to be drawn.
    pub fn new(visible_lines: u16) -> (r: Screen)
        ensures
            r.current_line == 0,
            r.song_info is None,
            r.redraw_screen,
            !r.redraw_lyrics,
            !r.redraw_title,
            r.visible_lines == visible_lines,
    {
        Screen {
            current_line: 0,
            song_info: None,
            redraw_screen: true,
            redraw_lyrics: false,
            redraw_title: false,
            visible_lines,
        }
    }

    /// Takes the song that the player reports.  When it differs from the song
    /// shown, it becomes the song shown, no line is current, title and lyrics
    /// are to be drawn again, and `true` says that its lyrics must be loaded;
    /// otherwise nothing changes and the result is `false`.
    pub fn song_reported(&mut self, info: Option<(String, String)>) -> (r: bool)
        ensures
            r == !(old(self).song_info matches Some(x) && info matches Some(y) && x.0@ == y.0@
                && x.1@ == y.1@ || old(self).song_info is None && info is None),
            r ==> final(self).song_info == info && final(self).current_line == 0
                && final(self).redraw_lyrics && final(self).redraw_title
                && final(self).redraw_screen == old(self).redraw_screen
                && final(self).visible_lines == old(self).visible_lines,
            !r ==> *final(self) == *old(self),
    {
        if same_song(&self.song_info, &info) {
            return false;
        }
        self.song_info = info;
        self.current_line = 0;
        self.redraw_lyrics = true;
        self.redraw_title = true;
        true
    }

    /// Takes the number of the line that is current now; when it changed, the
    /// lyrics are to be drawn again.
    pub fn line_reported(&mut self, line: usize)
        ensures
            final(self).current_line == line,
            final(self).redraw_lyrics == (old(self).redraw_lyrics || old(self).current_line
                != line),
            final(self).song_info == old(self).song_info,
            final(self).redraw_screen == old(self).redraw_screen,
            final(self).redraw_title == old(self).redraw_title,
            final(self).visible_lines == old(self).visible_lines,
    {
        if self.current_line != line {
            self.current_line = line;
            self.redraw_lyrics = true;
        }
    }

    /// Reacts to input; `true` means the program should quit (the `q` or `Q`
    /// key was pressed).  A resize has the whole screen drawn again.
    pub fn input(&mut self, input: Input) -> (quit: bool)
        ensures
            quit == (input matches Input::Key { ch: Some(c), pressed: true } && (c == 'q' || c
                == 'Q')),
            final(self).redraw_screen == (old(self).redraw_screen || input is Resize),
            final(self).current_line == old(self).current_line,
            final(self).song_info == old(self).song_info,
            final(self).redraw_lyrics == old(self).redraw_lyrics,
            final(self).redraw_title == old(self).redraw_title,
            final(self).visible_lines == old(self).visible_lines,
    {
        match input {
            Input::Key { ch: Some(c), pressed: true } => c == 'q' || c == 'Q',
            Input::Resize => {
                self.redraw_screen = true;
                false
            },
            _ => false,
        }
    }

    /// Decides what to draw on a terminal of `width` by `height` and marks it
    /// drawn.  On a terminal that is too small only a notice is shown and
    /// nothing changes.  Otherwise a full redraw draws frame, title and lyrics
    /// and takes the lyric rows from the height; a title or lyrics redraw
    /// draws that part; afterwards nothing is left to redraw.
    pub fn render(&mut self, width: u16, height: u16) -> (plan: RenderPlan)
        ensures
            !(width >= MIN_WIDTH && height >= MIN_HEIGHT) ==> plan is TooSmall && *final(self)
                == *old(self),
            width >= MIN_WIDTH && height >= MIN_HEIGHT ==> {
                &&& plan == (RenderPlan::Draw {
                    borders: old(self).redraw_screen,
                    title: old(self).redraw_screen || old(self).redraw_title,
                    lyrics: old(self).redraw_screen || old(self).redraw_lyrics,
                })
                &&& !final(self).redraw_screen && !final(self).redraw_title
                    && !final(self).redraw_lyrics
                &&& final(self).visible_lines == (if old(self).redraw_screen {
                    (height - FRAME_ROWS) as u16
                } else {
                    old(self).visible_lines
                })
                &&& final(self).current_line == old(self).current_line
                &&& final(self).song_info == old(self).song_info
            },
    {
        if !fits(width, height) {
            return RenderPlan::TooSmall;
        }
        let plan = RenderPlan::Draw {
            borders: self.redraw_screen,
            title: self.redraw_screen || self.redraw_title,
            lyrics: self.redraw_screen || self.redraw_lyrics,
        };
        if self.redraw_screen {
            self.visible_lines = height - FRAME_ROWS;
        }
        self.redraw_screen = false;
        self.redraw_title = false;
        self.redraw_lyrics = false;
        plan
    }
}

} // verus!
