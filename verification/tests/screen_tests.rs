use lyrics_tui::layout::{
    centered_x, fade_color, fits, line_for_row, lyric_rows, lyric_width, title_column, title_row,
    visible_lines_for,
};
use lyrics_tui::screen::{needs_full_fetch, player_changed, same_text, Input, RenderPlan, Screen};

#[test]
fn terminal_size_limits() {
    assert!(fits(30, 9));
    assert!(!fits(29, 40));
    assert!(!fits(80, 8));
    assert_eq!(visible_lines_for(24), 16);
    assert_eq!(visible_lines_for(5), 0);
    assert_eq!(lyric_width(80), 68);
}

#[test]
fn rows_are_centred() {
    assert_eq!(lyric_rows(16), (9, 3));
    assert_eq!(lyric_rows(5), (5, 0));
    assert_eq!(lyric_rows(0), (0, 0));
    assert_eq!(title_row(16), 1);
    assert_eq!(title_row(40), 7);
}

#[test]
fn current_line_in_the_middle_row() {
    assert_eq!(line_for_row(10, 4, 9), 10);
    assert_eq!(line_for_row(10, 0, 9), 6);
    assert_eq!(line_for_row(10, 8, 9), 14);
    assert_eq!(line_for_row(1, 0, 9), 0);
    assert_eq!(line_for_row(0, 4, 9), 0);
}

#[test]
fn fade_from_the_middle() {
    assert_eq!(fade_color(4, 9), 15);
    assert_eq!(fade_color(3, 9), 245);
    assert_eq!(fade_color(5, 9), 245);
    assert_eq!(fade_color(0, 9), 237);
    assert_eq!(fade_color(8, 9), 237);
    assert_eq!(fade_color(0, 1), 15);
}

#[test]
fn centring() {
    assert_eq!(centered_x(20, 5), 7);
    assert_eq!(centered_x(5, 10), 0);
    assert_eq!(centered_x(68, 65_536 + 8), 30);
    assert_eq!(title_column(20, "ab", "cd"), 6);
}

#[test]
fn text_comparison() {
    assert!(same_text("abc", "abc"));
    assert!(!same_text("abc", "abd"));
    assert!(!same_text("abc", "ab"));
    assert!(player_changed(None, "vlc"));
    assert!(player_changed(Some("spotify"), "vlc"));
    assert!(!player_changed(Some("vlc"), "vlc"));
}

#[test]
fn fetch_interval() {
    assert!(!needs_full_fetch(1_000_000_000));
    assert!(needs_full_fetch(1_000_000_001));
    assert!(!needs_full_fetch(0));
}

#[test]
fn new_song_resets_the_view() {
    let mut s = Screen::new(16);
    assert!(s.redraw_screen);
    let song = Some(("Artist".to_string(), "Title".to_string()));
    s.line_reported(7);
    assert!(s.song_reported(song.clone()));
    assert_eq!(s.current_line, 0);
    assert!(s.redraw_title && s.redraw_lyrics);
    assert_eq!(s.song_info, song);
    s.redraw_title = false;
    s.redraw_lyrics = false;
    assert!(!s.song_reported(song.clone()));
    assert!(!s.redraw_title && !s.redraw_lyrics);
    assert!(s.song_reported(None));
    assert!(!s.song_reported(None));
}

#[test]
fn line_changes_redraw_lyrics() {
    let mut s = Screen::new(16);
    s.line_reported(0);
    assert!(!s.redraw_lyrics);
    s.line_reported(3);
    assert!(s.redraw_lyrics);
    assert_eq!(s.current_line, 3);
}

#[test]
fn quit_and_resize() {
    let mut s = Screen::new(16);
    s.redraw_screen = false;
    assert!(s.input(Input::Key { ch: Some('q'), pressed: true }));
    assert!(s.input(Input::Key { ch: Some('Q'), pressed: true }));
    assert!(!s.input(Input::Key { ch: Some('q'), pressed: false }));
    assert!(!s.input(Input::Key { ch: Some('x'), pressed: true }));
    assert!(!s.input(Input::Key { ch: None, pressed: true }));
    assert!(!s.redraw_screen);
    assert!(!s.input(Input::Resize));
    assert!(s.redraw_screen);
    assert!(!s.input(Input::Other));
}

#[test]
fn render_plans() {
    let mut s = Screen::new(0);
    assert!(matches!(s.render(20, 20), RenderPlan::TooSmall));
    assert!(s.redraw_screen);
    assert!(matches!(
        s.render(80, 24),
        RenderPlan::Draw { borders: true, title: true, lyrics: true }
    ));
    assert_eq!(s.visible_lines, 16);
    assert!(!s.redraw_screen && !s.redraw_title && !s.redraw_lyrics);
    assert!(matches!(
        s.render(80, 24),
        RenderPlan::Draw { borders: false, title: false, lyrics: false }
    ));
    s.line_reported(2);
    assert!(matches!(
        s.render(80, 30),
        RenderPlan::Draw { borders: false, title: false, lyrics: true }
    ));
    assert_eq!(s.visible_lines, 16);
}
