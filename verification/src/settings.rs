//! The settings file and the window-state file: defaults, normalisation
//! and the paths the settings resolve to.
use vstd::prelude::*;
use crate::text::chars_of;

verus! {

// ------------------------------------------------------------------ paths

/// Whether a path is absolute, as `std::path::Path::is_absolute` answers on
/// the platform the crate is built for.
pub uninterp spec fn is_absolute_path(p: Seq<char>) -> bool;

/// The path that `std::path::Path::join` makes of a base and a further path.
pub uninterp spec fn joined_path(base: Seq<char>, rest: Seq<char>) -> Seq<char>;

/// The parent that `std::path::Path::parent` gives of a path, if any.
pub uninterp spec fn parent_of(p: Seq<char>) -> Option<Seq<char>>;

/// Calls `Path::is_absolute`; the contract only names the answer.
#[verifier::external_body]
fn path_is_absolute(p: &str) -> (b: bool)
    ensures
        b == is_absolute_path(p@),
{
    std::path::Path::new(p).is_absolute()
}

/// Calls `Path::join` on two UTF-8 paths; the contract only names the
/// result (a join of UTF-8 paths is UTF-8, so the conversion back to a
/// `String` loses nothing).
#[verifier::external_body]
fn join_path(base: &str, rest: &str) -> (r: String)
    ensures
        r@ == joined_path(base@, rest@),
{
    std::path::Path::new(base).join(rest).to_string_lossy().into_owned()
}

/// Calls `Path::parent`; the contract only names the result.
#[verifier::external_body]
fn parent_path(p: &str) -> (r: Option<String>)
    ensures
        match r {
            Some(s) => parent_of(p@) == Some(s@),
            None => parent_of(p@) is None,
        },
{
    match std::path::Path::new(p).parent() {
        Some(q) => Some(q.to_string_lossy().into_owned()),
        None => None,
    }
}

/// A configured path taken as it is when absolute, else relative to
/// `base_dir`.
pub open spec fn resolved_path(base_dir: Seq<char>, configured: Seq<char>) -> Seq<char> {
    if is_absolute_path(configured) {
        configured
    } else {
        joined_path(base_dir, configured)
    }
}

/// Resolves a path from the settings: an absolute path stands as it is, a
/// relative one is taken from `base_dir`.
pub fn resolve_config_path(base_dir: &str, configured: &str) -> (r: String)
    ensures
        r@ == resolved_path(base_dir@, configured@),
{
    if path_is_absolute(configured) {
        String::from_str(configured)
    } else {
        join_path(base_dir, configured)
    }
}

// --------------------------------------------------------------- settings

/// The fields of the settings file that are not numbers with a fraction;
/// every one may be missing.
#[derive(Debug, Clone)]
pub struct AppSettingsFile {
    pub lyrics_dir: Option<String>,
    pub cache_limit_mb: Option<u64>,
    pub show_secondary_line: Option<bool>,
    pub use_gradient: Option<bool>,
    pub lyric_effect: Option<String>,
    pub font_family: Option<String>,
    pub highlight_color: Option<String>,
    pub base_color: Option<String>,
    pub preview_color: Option<String>,
    pub stroke_color: Option<String>,
    pub shadow_color: Option<String>,
    pub panel_background_color: Option<String>,
    pub panel_border_color: Option<String>,
    pub resize_handle_color: Option<String>,
}

/// The settings in use, every default filled in.
#[derive(Debug, Clone)]
pub struct AppSettings {
    pub lyrics_root: String,
    pub imported_dir: String,
    pub cache_dir: String,
    pub cache_limit_bytes: u64,
    pub show_secondary_line: bool,
    pub use_gradient: bool,
    pub lyric_effect: String,
    pub font_family: String,
    pub highlight_color: String,
    pub base_color: String,
    pub preview_color: String,
    pub stroke_color: String,
    pub shadow_color: String,
    pub panel_background_color: String,
    pub panel_border_color: String,
    pub resize_handle_color: String,
    pub config_path: String,
}

/// A text setting, or its default when it is missing.
pub open spec fn text_or(v: Option<String>, default: Seq<char>) -> Seq<char> {
    match v {
        Some(s) => s@,
        None => default,
    }
}

/// The code of a character with ASCII letters taken in lower case.
pub open spec fn ascii_lower(c: char) -> u32 {
    if 'A' <= c && c <= 'Z' {
        ((c as u32) + 32) as u32
    } else {
        c as u32
    }
}

/// Two texts equal up to the case of ASCII letters (`eq_ignore_ascii_case`).
pub open spec fn eq_ignore_ascii_case(a: Seq<char>, b: Seq<char>) -> bool {
    a.len() == b.len() && forall|i: int| 0 <= i < a.len() ==> ascii_lower(#[trigger] a[i]) == ascii_lower(b[i])
}

/// Compares two texts up to the case of ASCII letters.
pub fn equal_ignoring_ascii_case(a: &str, b: &str) -> (r: bool)
    ensures
        r == eq_ignore_ascii_case(a@, b@),
{
    let x = chars_of(a);
    let y = chars_of(b);
    if x.len() != y.len() {
        return false;
    }
    let mut i: usize = 0;
    while i < x.len()
        invariant
            x@ == a@,
            y@ == b@,
            x@.len() == y@.len(),
            i <= x@.len(),
            forall|j: int| 0 <= j < i ==> ascii_lower(#[trigger] x@[j]) == ascii_lower(y@[j]),
        decreases x@.len() - i,
    {
        let c = x[i];
        let d = y[i];
        let lc: u32 = if 'A' <= c && c <= 'Z' { (c as u32) + 32 } else { c as u32 };
        let ld: u32 = if 'A' <= d && d <= 'Z' { (d as u32) + 32 } else { d as u32 };
        assert(lc == ascii_lower(x@[i as int]));
        assert(ld == ascii_lower(y@[i as int]));
        if lc != ld {
            return false;
        }
        i = i + 1;
    }
    true
}

fn text_setting(v: &Option<String>, default: &str) -> (r: String)
    ensures
        r@ == text_or(*v, default@),
{
    match v {
        Some(s) => s.clone(),
        None => String::from_str(default),
    }
}

/// The lyric effect a setting asks for: `floating` (in any ASCII case) or
/// else `flat`.
pub open spec fn effect_of(requested: Seq<char>) -> Seq<char> {
    if eq_ignore_ascii_case(requested, "floating"@) {
        "floating"@
    } else {
        "flat"@
    }
}

/// MiB in bytes, saturating at `u64::MAX`.
pub open spec fn mib_to_bytes(mb: u64) -> u64 {
    if mb * 1_048_576 > u64::MAX {
        u64::MAX
    } else {
        (mb * 1_048_576) as u64
    }
}

/// The settings file with no field set.
pub open spec fn empty_settings_file() -> AppSettingsFile {
    AppSettingsFile {
        lyrics_dir: None,
        cache_limit_mb: None,
        show_secondary_line: None,
        use_gradient: None,
        lyric_effect: None,
        font_family: None,
        highlight_color: None,
        base_color: None,
        preview_color: None,
        stroke_color: None,
        shadow_color: None,
        panel_background_color: None,
        panel_border_color: None,
        resize_handle_color: None,
    }
}

/// The file that was read, or one with no field set when none was.
pub open spec fn file_or_empty(parsed: Option<AppSettingsFile>) -> AppSettingsFile {
    match parsed {
        Some(f) => f,
        None => empty_settings_file(),
    }
}

/// The folder of the settings file (`.` when its path has no parent).
pub open spec fn config_base_dir(config_path: Seq<char>) -> Seq<char> {
    match parent_of(config_path) {
        Some(p) => p,
        None => "."@,
    }
}

/// The folder that holds the lyrics: the `lyrics_dir` setting (by default
/// `./歌词数据`) resolved against the folder of the settings file.
pub open spec fn lyrics_root_of(config_path: Seq<char>, f: AppSettingsFile) -> Seq<char> {
    resolved_path(config_base_dir(config_path), text_or(f.lyrics_dir, "./歌词数据"@))
}

impl AppSettings {
    /// Fills in the settings from the settings file at `config_path`, as read
    /// (`None` when it could not be read or parsed): every missing field
    /// takes its default, the lyric effect is `floating` or `flat`, the cache
    /// limit is converted from MiB to bytes (saturating), and the folders of
    /// imported and cached lyrics lie in the lyrics folder.
    pub fn from_file(config_path: &str, parsed: Option<AppSettingsFile>) -> (r: AppSettings)
        ensures
            r.config_path@ == config_path@,
            r.lyrics_root@ == lyrics_root_of(config_path@, file_or_empty(parsed)),
            r.imported_dir@ == joined_path(r.lyrics_root@, "导入歌词"@),
            r.cache_dir@ == joined_path(r.lyrics_root@, "缓存歌词"@),
            r.cache_limit_bytes == mib_to_bytes(match file_or_empty(parsed).cache_limit_mb {
                Some(mb) => mb,
                None => 256u64,
            }),
            r.show_secondary_line == (match file_or_empty(parsed).show_secondary_line {
                Some(b) => b,
                None => true,
            }),
            r.use_gradient == (match file_or_empty(parsed).use_gradient {
                Some(b) => b,
                None => false,
            }),
            r.lyric_effect@ == effect_of(text_or(file_or_empty(parsed).lyric_effect, "flat"@)),
            r.font_family@ == text_or(
                file_or_empty(parsed).font_family,
                "Noto Sans CJK SC, Source Han Sans SC, Noto Sans, sans-serif"@,
            ),
            r.highlight_color@ == text_or(file_or_empty(parsed).highlight_color, "#00e676"@),
            r.base_color@ == text_or(file_or_empty(parsed).base_color, "#f5f7fb"@),
            r.preview_color@ == text_or(file_or_empty(parsed).preview_color, "#f5f7fb"@),
            r.stroke_color@ == text_or(file_or_empty(parsed).stroke_color, "#081019e0"@),
            r.shadow_color@ == text_or(file_or_empty(parsed).shadow_color, "#000000c4"@),
            r.panel_background_color@ == text_or(
                file_or_empty(parsed).panel_background_color,
                "#00000095"@,
            ),
            r.panel_border_color@ == text_or(file_or_empty(parsed).panel_border_color, "#ffffff28"@),
            r.resize_handle_color@ == text_or(
                file_or_empty(parsed).resize_handle_color,
                "#ffffffa8"@,
            ),
    {
        let f = match parsed {
            Some(f) => f,
            None => AppSettingsFile {
                lyrics_dir: None,
                cache_limit_mb: None,
                show_secondary_line: None,
                use_gradient: None,
                lyric_effect: None,
                font_family: None,
                highlight_color: None,
                base_color: None,
                preview_color: None,
                stroke_color: None,
                shadow_color: None,
                panel_background_color: None,
                panel_border_color: None,
                resize_handle_color: None,
            },
        };
        let base_dir = match parent_path(config_path) {
            Some(p) => p,
            None => String::from_str("."),
        };
        let lyrics_dir = text_setting(&f.lyrics_dir, "./歌词数据");
        let lyrics_root = resolve_config_path(base_dir.as_str(), lyrics_dir.as_str());
        let imported_dir = join_path(lyrics_root.as_str(), "导入歌词");
        let cache_dir = join_path(lyrics_root.as_str(), "缓存歌词");
        let cache_limit_mb: u64 = match f.cache_limit_mb {
            Some(mb) => mb,
            None => 256,
        };
        let requested_effect = text_setting(&f.lyric_effect, "flat");
        let lyric_effect = if equal_ignoring_ascii_case(requested_effect.as_str(), "floating") {
            String::from_str("floating")
        } else {
            String::from_str("flat")
        };
        AppSettings {
            lyrics_root,
            imported_dir,
            cache_dir,
            cache_limit_bytes: if cache_limit_mb > u64::MAX / 1_048_576 {
                u64::MAX
            } else {
                cache_limit_mb * 1_048_576
            },
            show_secondary_line: match f.show_secondary_line {
                Some(b) => b,
                None => true,
            },
            use_gradient: match f.use_gradient {
                Some(b) => b,
                None => false,
            },
            lyric_effect,
            font_family: text_setting(
                &f.font_family,
                "Noto Sans CJK SC, Source Han Sans SC, Noto Sans, sans-serif",
            ),
            highlight_color: text_setting(&f.highlight_color, "#00e676"),
            base_color: text_setting(&f.base_color, "#f5f7fb"),
            preview_color: text_setting(&f.preview_color, "#f5f7fb"),
            stroke_color: text_setting(&f.stroke_color, "#081019e0"),
            shadow_color: text_setting(&f.shadow_color, "#000000c4"),
            panel_background_color: text_setting(&f.panel_background_color, "#00000095"),
            panel_border_color: text_setting(&f.panel_border_color, "#ffffff28"),
            resize_handle_color: text_setting(&f.resize_handle_color, "#ffffffa8"),
            config_path: String::from_str(config_path),
        }
    }
}

// ------------------------------------------------------------ window state

/// The state of the overlay window that changes while it runs and is kept
/// between runs: lock, size, position and font scale.
#[derive(Debug, Clone, Copy, PartialEq, Eq)]
pub struct PreviewData {
    pub locked: Option<bool>,
    pub panel_width: Option<u32>,
    pub panel_height: Option<u32>,
    pub panel_x: Option<i32>,
    pub panel_y: Option<i32>,
    pub font_scale: Option<i32>,
}

impl PreviewData {
    /// The window state of a first run.
    pub open spec fn spec_default() -> PreviewData {
        PreviewData {
            locked: Some(false),
            panel_width: Some(640),
            panel_height: Some(112),
            panel_x: Some(36),
            panel_y: Some(24),
            font_scale: Some(0),
        }
    }
}

impl Default for PreviewData {
    /// Unlocked, 640×112 at (36, 24), font scale 0.
    fn default() -> (r: PreviewData)
        ensures
            r == PreviewData::spec_default(),
    {
        PreviewData {
            locked: Some(false),
            panel_width: Some(640),
            panel_height: Some(112),
            panel_x: Some(36),
            panel_y: Some(24),
            font_scale: Some(0),
        }
    }
}

/// The overlay's geometry as it is drawn from a window state.
#[derive(Debug, Clone, Copy, PartialEq, Eq)]
pub struct PanelLayout {
    pub locked: bool,
    pub width: u32,
    pub height: u32,
    pub x: i32,
    pub y: i32,
    pub font_scale: i32,
}

/// A coordinate kept on screen: never left of or above the corner.
pub open spec fn on_screen(v: i32) -> i32 {
    if v >= 0 {
        v
    } else {
        0i32
    }
}

impl PreviewData {
    /// The geometry drawn from this state: each missing field takes its
    /// default (unlocked, 640×112 at (36, 24), font scale 0) and the position
    /// is kept on screen.
    pub fn panel_layout(&self) -> (r: PanelLayout)
        ensures
            r.locked == (match self.locked {
                Some(b) => b,
                None => false,
            }),
            r.width == (match self.panel_width {
                Some(v) => v,
                None => 640u32,
            }),
            r.height == (match self.panel_height {
                Some(v) => v,
                None => 112u32,
            }),
            r.x == on_screen(match self.panel_x {
                Some(v) => v,
                None => 36i32,
            }),
            r.y == on_screen(match self.panel_y {
                Some(v) => v,
                None => 24i32,
            }),
            r.font_scale == (match self.font_scale {
                Some(v) => v,
                None => 0i32,
            }),
    {
        let x: i32 = match self.panel_x {
            Some(v) => v,
            None => 36,
        };
        let y: i32 = match self.panel_y {
            Some(v) => v,
            None => 24,
        };
        PanelLayout {
            locked: match self.locked {
                Some(b) => b,
                None => false,
            },
            width: match self.panel_width {
                Some(v) => v,
                None => 640,
            },
            height: match self.panel_height {
                Some(v) => v,
                None => 112,
            },
            x: if x >= 0 { x } else { 0 },
            y: if y >= 0 { y } else { 0 },
            font_scale: match self.font_scale {
                Some(v) => v,
                None => 0,
            },
        }
    }
}

/// What to write to the window-state file before the first read: nothing
/// when the file exists, else the default state.
pub fn ensure_preview_file(path_exists: bool) -> (r: Option<PreviewData>)
    ensures
        path_exists ==> r is None,
        !path_exists ==> r == Some(PreviewData::spec_default()),
{
    if path_exists {
        return None;
    }
    Some(PreviewData::default())
}

} // verus!

verus! {

/// The font scale after a step: the sum kept within `-8..=18`.
pub open spec fn stepped_font_scale(current: int, step: int) -> i32 {
    if current + step < -8 {
        -8i32
    } else if current + step > 18 {
        18i32
    } else {
        (current + step) as i32
    }
}

impl PreviewData {
    /// Flips the lock; a missing lock counts as unlocked.
    pub fn toggle_locked(&mut self)
        ensures
            final(self).locked == Some(!(match old(self).locked {
                Some(b) => b,
                None => false,
            })),
            final(self).panel_width == old(self).panel_width,
            final(self).panel_height == old(self).panel_height,
            final(self).panel_x == old(self).panel_x,
            final(self).panel_y == old(self).panel_y,
            final(self).font_scale == old(self).font_scale,
    {
        let locked = match self.locked {
            Some(b) => b,
            None => false,
        };
        self.locked = Some(!locked);
    }

    /// Moves the font scale by `step` (a missing scale counts as 0) and
    /// keeps it within `-8..=18`.
    pub fn step_font_scale(&mut self, step: i32)
        requires
            i32::MIN <= (match old(self).font_scale {
                Some(v) => v,
                None => 0i32,
            }) + step <= i32::MAX,
        ensures
            final(self).font_scale == Some(stepped_font_scale(
                match old(self).font_scale {
                    Some(v) => v as int,
                    None => 0,
                },
                step as int,
            )),
            final(self).locked == old(self).locked,
            final(self).panel_width == old(self).panel_width,
            final(self).panel_height == old(self).panel_height,
            final(self).panel_x == old(self).panel_x,
            final(self).panel_y == old(self).panel_y,
    {
        let current: i32 = match self.font_scale {
            Some(v) => v,
            None => 0,
        };
        let next = current + step;
        self.font_scale = Some(if next < -8 {
            -8
        } else if next > 18 {
            18
        } else {
            next
        });
    }

    /// Where a move starts: the panel position, by default (36, 24).
    pub fn move_origin(&self) -> (r: (i32, i32))
        ensures
            r.0 == (match self.panel_x {
                Some(v) => v,
                None => 36i32,
            }),
            r.1 == (match self.panel_y {
                Some(v) => v,
                None => 24i32,
            }),
    {
        (
            match self.panel_x {
                Some(v) => v,
                None => 36,
            },
            match self.panel_y {
                Some(v) => v,
                None => 24,
            },
        )
    }

    /// Places the panel at `origin` moved by `(dx, dy)`, never left of or
    /// above the screen's corner.
    pub fn move_panel(&mut self, origin: (i32, i32), dx: i32, dy: i32)
        requires
            i32::MIN <= origin.0 + dx <= i32::MAX,
            i32::MIN <= origin.1 + dy <= i32::MAX,
        ensures
            final(self).panel_x == Some(if origin.0 + dx >= 0 { (origin.0 + dx) as i32 } else { 0i32 }),
            final(self).panel_y == Some(if origin.1 + dy >= 0 { (origin.1 + dy) as i32 } else { 0i32 }),
            final(self).locked == old(self).locked,
            final(self).panel_width == old(self).panel_width,
            final(self).panel_height == old(self).panel_height,
            final(self).font_scale == old(self).font_scale,
    {
        let x = origin.0 + dx;
        let y = origin.1 + dy;
        self.panel_x = Some(if x >= 0 { x } else { 0 });
        self.panel_y = Some(if y >= 0 { y } else { 0 });
    }

    /// Where a resize starts: the panel size, by default 640×112.
    pub fn resize_origin(&self) -> (r: (u32, u32))
        ensures
            r.0 == (match self.panel_width {
                Some(v) => v,
                None => 640u32,
            }),
            r.1 == (match self.panel_height {
                Some(v) => v,
                None => 112u32,
            }),
    {
        (
            match self.panel_width {
                Some(v) => v,
                None => 640,
            },
            match self.panel_height {
                Some(v) => v,
                None => 112,
            },
        )
    }

    /// Sizes the panel as `origin` grown by `(dw, dh)`, at least 320×96. The
    /// origin is read as a signed number, as the overlay does.
    pub fn resize_panel(&mut self, origin: (u32, u32), dw: i32, dh: i32)
        requires
            i32::MIN <= (origin.0 as i32) + dw <= i32::MAX,
            i32::MIN <= (origin.1 as i32) + dh <= i32::MAX,
        ensures
            final(self).panel_width == Some(if (origin.0 as i32) + dw >= 320 {
                ((origin.0 as i32) + dw) as u32
            } else {
                320u32
            }),
            final(self).panel_height == Some(if (origin.1 as i32) + dh >= 96 {
                ((origin.1 as i32) + dh) as u32
            } else {
                96u32
            }),
            final(self).locked == old(self).locked,
            final(self).panel_x == old(self).panel_x,
            final(self).panel_y == old(self).panel_y,
            final(self).font_scale == old(self).font_scale,
    {
        let w = (origin.0 as i32) + dw;
        let h = (origin.1 as i32) + dh;
        self.panel_width = Some(if w >= 320 { w as u32 } else { 320 });
        self.panel_height = Some(if h >= 96 { h as u32 } else { 96 });
    }
}

} // verus!

verus! {

/// The font scale always stays within `-8..=18`.
pub proof fn lemma_font_scale_in_range(current: int, step: int)
    ensures
        -8 <= stepped_font_scale(current, step) <= 18,
{
}

} // verus!
