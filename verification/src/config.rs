//! The settings of the effect.
use vstd::prelude::*;

verus! {

/// What the frame is keyed by.
#[derive(Debug, Clone, Copy, PartialEq, Eq, Structural)]
pub enum KeyingMode {
    Luminance,
    Color,
    MotionDetection,
}

/// Which side of the threshold luminance keying takes.
#[derive(Debug, Clone, Copy, PartialEq, Eq, Structural)]
pub enum LumaTarget {
    Brighter,
    Darker,
}

/// What happens to boxes that overlap.
#[derive(Debug, Clone, Copy, PartialEq, Eq, Structural)]
pub enum OverlapMode {
    Keep,
    RemoveSmaller,
    RemoveBigger,
}

/// The outline drawn for a box.
#[derive(Debug, Clone, Copy, PartialEq, Eq, Structural)]
pub enum BoxShape {
    Rectangle,
    Square,
    Ellipse,
    Circle,
}

/// Where a stroke lies relative to the outline.
#[derive(Debug, Clone, Copy, PartialEq, Eq, Structural)]
pub enum StrokePosition {
    Inside,
    Center,
    Outside,
}

/// Which part of the outline a stroke covers.
#[derive(Debug, Clone, Copy, PartialEq, Eq, Structural)]
pub enum CornerMode {
    /// The whole outline, with no corner picked out.
    Full,
    CornerOnly,
    HorizontalBracket,
    VerticalBracket,
    BracketLeft,
    BracketRight,
}

/// How a box is filled.
#[derive(Debug, Clone, Copy, PartialEq, Eq, Structural)]
pub enum FillMode {
    Solid,
    Gradient,
    Hatch,
    Invert,
    Random,
    Binarize,
    ColorNoise,
    Noise,
}

/// The form of a gradient.
#[derive(Debug, Clone, Copy, PartialEq, Eq, Structural)]
pub enum GradType {
    Linear,
    Radial,
}

/// The form of a marker.
#[derive(Debug, Clone, Copy, PartialEq, Eq, Structural)]
pub enum MarkerType {
    Dot,
    Square,
    Cross,
}

/// Which centres the connection lines join.
#[derive(Debug, Clone, Copy, PartialEq, Eq, Structural)]
pub enum LineType {
    Sequential,
    ConnectAll,
    MinimumSpanningTree,
}

/// The order in which the connection lines visit the centres.
#[derive(Debug, Clone, Copy, PartialEq, Eq, Structural)]
pub enum LineOrder {
    TopToBottom,
    BottomToTop,
    LeftToRight,
    RightToLeft,
    DistanceFromCenter,
    NearestNeighbor,
    PolarSweep,
}

/// What a text is placed by.
#[derive(Debug, Clone, Copy, PartialEq, Eq, Structural)]
pub enum TextReference {
    Box,
    Marker,
}

/// Horizontal alignment.
#[derive(Debug, Clone, Copy, PartialEq, Eq, Structural)]
pub enum AlignH {
    Left,
    Center,
    Right,
}

/// Vertical alignment.
#[derive(Debug, Clone, Copy, PartialEq, Eq, Structural)]
pub enum AlignV {
    Top,
    Middle,
    Bottom,
}

/// The fonts on offer.
#[derive(Debug, Clone, Copy, PartialEq, Eq, Structural)]
pub enum FontName {
    MeiryoUi,
    YuGothicUi,
    MsGothic,
    MsMincho,
    Arial,
    ArialBlack,
    ComicSansMs,
    CourierNew,
    Georgia,
    Impact,
    LucidaConsole,
    SegoeUi,
    Tahoma,
    TimesNewRoman,
    TrebuchetMs,
    Verdana,
    Consolas,
}

impl FontName {
    /// The name under which the system knows the font.
    pub open spec fn face(self) -> Seq<char> {
        match self {
            FontName::MeiryoUi => "Meiryo UI"@,
            FontName::YuGothicUi => "Yu Gothic UI"@,
            FontName::MsGothic => "MS Gothic"@,
            FontName::MsMincho => "MS Mincho"@,
            FontName::Arial => "Arial"@,
            FontName::ArialBlack => "Arial Black"@,
            FontName::ComicSansMs => "Comic Sans MS"@,
            FontName::CourierNew => "Courier New"@,
            FontName::Georgia => "Georgia"@,
            FontName::Impact => "Impact"@,
            FontName::LucidaConsole => "Lucida Console"@,
            FontName::SegoeUi => "Segoe UI"@,
            FontName::Tahoma => "Tahoma"@,
            FontName::TimesNewRoman => "Times New Roman"@,
            FontName::TrebuchetMs => "Trebuchet MS"@,
            FontName::Verdana => "Verdana"@,
            FontName::Consolas => "Consolas"@,
        }
    }

    /// The name under which the system knows the font.
    pub fn as_str(&self) -> (s: &'static str)
        ensures
            s@ == self.face(),
    {
        match self {
            FontName::MeiryoUi => "Meiryo UI",
            FontName::YuGothicUi => "Yu Gothic UI",
            FontName::MsGothic => "MS Gothic",
            FontName::MsMincho => "MS Mincho",
            FontName::Arial => "Arial",
            FontName::ArialBlack => "Arial Black",
            FontName::ComicSansMs => "Comic Sans MS",
            FontName::CourierNew => "Courier New",
            FontName::Georgia => "Georgia",
            FontName::Impact => "Impact",
            FontName::LucidaConsole => "Lucida Console",
            FontName::SegoeUi => "Segoe UI",
            FontName::Tahoma => "Tahoma",
            FontName::TimesNewRoman => "Times New Roman",
            FontName::TrebuchetMs => "Trebuchet MS",
            FontName::Verdana => "Verdana",
            FontName::Consolas => "Consolas",
        }
    }
}

/// The choices, switches, counts and text of the effect.
///
/// Measured quantities (thresholds, widths, angles, opacities) and colours are
/// no part of it: they reach the library as whole numbers where it needs them.
#[derive(Debug)]
pub struct FilterConfig {
    pub key_mode: KeyingMode,
    pub luma_target: LumaTarget,
    pub overlap_mode: OverlapMode,
    pub box_enabled: bool,
    pub box_shape: BoxShape,
    pub stroke_enabled: bool,
    pub stroke_position: StrokePosition,
    pub stroke_dotted: bool,
    pub stroke_corner_mode: CornerMode,
    pub fill_enabled: bool,
    pub fill_mode: FillMode,
    pub grad_type: GradType,
    pub fill_binarize_invert: bool,
    pub fill_random_only: bool,
    /// In percent.
    pub fill_random_probability: u32,
    pub marker_enabled: bool,
    pub marker_type: MarkerType,
    pub line_enabled: bool,
    pub line_type: LineType,
    pub line_order: LineOrder,
    pub line_connect_limit: bool,
    /// The most lines drawn when the number of lines is limited.
    pub line_connect_max: usize,
    pub line_curve: bool,
    pub line_dotted: bool,
    pub arrow_enabled: bool,
    pub text_enabled: bool,
    pub text_content: String,
    pub text_reference: TextReference,
    pub text_h_align: AlignH,
    pub text_v_align: AlignV,
    pub text_h_pos: AlignH,
    pub text_v_pos: AlignV,
    pub text_font: FontName,
}

impl Default for FilterConfig {
    /// The settings of a fresh effect.
    fn default() -> (cfg: Self)
        ensures
            cfg.key_mode == KeyingMode::Luminance,
            cfg.luma_target == LumaTarget::Brighter,
            cfg.overlap_mode == OverlapMode::Keep,
            cfg.box_enabled,
            cfg.box_shape == BoxShape::Rectangle,
            cfg.stroke_enabled,
            cfg.stroke_position == StrokePosition::Center,
            !cfg.stroke_dotted,
            cfg.stroke_corner_mode == CornerMode::Full,
            !cfg.fill_enabled,
            cfg.fill_mode == FillMode::Solid,
            cfg.grad_type == GradType::Linear,
            !cfg.fill_binarize_invert,
            !cfg.fill_random_only,
            cfg.fill_random_probability == 50,
            !cfg.marker_enabled,
            cfg.marker_type == MarkerType::Dot,
            !cfg.line_enabled,
            cfg.line_type == LineType::Sequential,
            cfg.line_order == LineOrder::TopToBottom,
            !cfg.line_connect_limit,
            cfg.line_connect_max == 100,
            !cfg.line_curve,
            !cfg.line_dotted,
            !cfg.arrow_enabled,
            !cfg.text_enabled,
            cfg.text_content@ == "X:$[box_x_position],Y:$[box_y_position]"@,
            cfg.text_reference == TextReference::Box,
            cfg.text_h_align == AlignH::Center,
            cfg.text_v_align == AlignV::Middle,
            cfg.text_h_pos == AlignH::Center,
            cfg.text_v_pos == AlignV::Middle,
            cfg.text_font == FontName::MeiryoUi,
    {
        FilterConfig {
            key_mode: KeyingMode::Luminance,
            luma_target: LumaTarget::Brighter,
            overlap_mode: OverlapMode::Keep,
            box_enabled: true,
            box_shape: BoxShape::Rectangle,
            stroke_enabled: true,
            stroke_position: StrokePosition::Center,
            stroke_dotted: false,
            stroke_corner_mode: CornerMode::Full,
            fill_enabled: false,
            fill_mode: FillMode::Solid,
            grad_type: GradType::Linear,
            fill_binarize_invert: false,
            fill_random_only: false,
            fill_random_probability: 50,
            marker_enabled: false,
            marker_type: MarkerType::Dot,
            line_enabled: false,
            line_type: LineType::Sequential,
            line_order: LineOrder::TopToBottom,
            line_connect_limit: false,
            line_connect_max: 100,
            line_curve: false,
            line_dotted: false,
            arrow_enabled: false,
            text_enabled: false,
            text_content: "X:$[box_x_position],Y:$[box_y_position]".to_string(),
            text_reference: TextReference::Box,
            text_h_align: AlignH::Center,
            text_v_align: AlignV::Middle,
            text_h_pos: AlignH::Center,
            text_v_pos: AlignV::Middle,
            text_font: FontName::MeiryoUi,
        }
    }
}

/// Fonts are told apart by their names.
pub proof fn law_fonts_have_their_own_names(a: FontName, b: FontName)
    ensures
        a.face() == b.face() ==> a == b,
        a == FontName::MeiryoUi ==> a.face() == "Meiryo UI"@,
        a == FontName::YuGothicUi ==> a.face() == "Yu Gothic UI"@,
        a == FontName::MsGothic ==> a.face() == "MS Gothic"@,
        a == FontName::MsMincho ==> a.face() == "MS Mincho"@,
        a == FontName::Arial ==> a.face() == "Arial"@,
        a == FontName::ArialBlack ==> a.face() == "Arial Black"@,
        a == FontName::ComicSansMs ==> a.face() == "Comic Sans MS"@,
        a == FontName::CourierNew ==> a.face() == "Courier New"@,
        a == FontName::Georgia ==> a.face() == "Georgia"@,
        a == FontName::Impact ==> a.face() == "Impact"@,
        a == FontName::LucidaConsole ==> a.face() == "Lucida Console"@,
        a == FontName::SegoeUi ==> a.face() == "Segoe UI"@,
        a == FontName::Tahoma ==> a.face() == "Tahoma"@,
        a == FontName::TimesNewRoman ==> a.face() == "Times New Roman"@,
        a == FontName::TrebuchetMs ==> a.face() == "Trebuchet MS"@,
        a == FontName::Verdana ==> a.face() == "Verdana"@,
        a == FontName::Consolas ==> a.face() == "Consolas"@,
{
    reveal_strlit("Meiryo UI");
    assert("Meiryo UI"@.len() == 9);
    reveal_strlit("Yu Gothic UI");
    assert("Yu Gothic UI"@.len() == 12);
    reveal_strlit("MS Gothic");
    assert("MS Gothic"@.len() == 9);
    reveal_strlit("MS Mincho");
    assert("MS Mincho"@.len() == 9);
    reveal_strlit("Arial");
    assert("Arial"@.len() == 5);
    reveal_strlit("Arial Black");
    assert("Arial Black"@.len() == 11);
    reveal_strlit("Comic Sans MS");
    assert("Comic Sans MS"@.len() == 13);
    reveal_strlit("Courier New");
    assert("Courier New"@.len() == 11);
    reveal_strlit("Georgia");
    assert("Georgia"@.len() == 7);
    reveal_strlit("Impact");
    assert("Impact"@.len() == 6);
    reveal_strlit("Lucida Console");
    assert("Lucida Console"@.len() == 14);
    reveal_strlit("Segoe UI");
    assert("Segoe UI"@.len() == 8);
    reveal_strlit("Tahoma");
    assert("Tahoma"@.len() == 6);
    reveal_strlit("Times New Roman");
    assert("Times New Roman"@.len() == 15);
    reveal_strlit("Trebuchet MS");
    assert("Trebuchet MS"@.len() == 12);
    reveal_strlit("Verdana");
    assert("Verdana"@.len() == 7);
    reveal_strlit("Consolas");
    assert("Consolas"@.len() == 8);
    assert("Meiryo UI"@[1] != "MS Gothic"@[1]);
    assert("Meiryo UI"@[1] != "MS Mincho"@[1]);
    assert("Yu Gothic UI"@[0] != "Trebuchet MS"@[0]);
    assert("MS Gothic"@[3] != "MS Mincho"@[3]);
    assert("Arial Black"@[0] != "Courier New"@[0]);
    assert("Georgia"@[0] != "Verdana"@[0]);
    assert("Impact"@[0] != "Tahoma"@[0]);
    assert("Segoe UI"@[0] != "Consolas"@[0]);
}

} // verus!
