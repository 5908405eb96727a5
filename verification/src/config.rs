//! Rendering parameters: eight fields with defaults, overwritten field by
//! field by the items of a configuration section.

use crate::text::{digit, is_digit};
use vstd::prelude::*;
use vstd::string::*;

verus! {

/// A decimal literal: one or more digits, a point, one or more digits.
pub open spec fn is_decimal(text: Seq<char>) -> bool {
    exists|point: int|
        {
            &&& 0 < point < text.len() - 1
            &&& #[trigger] text[point] == '.'
            &&& forall|i: int| 0 <= i < text.len() && i != point ==> digit(#[trigger] text[i])
        }
}

/// Decides whether `text` is a decimal literal.
pub fn check_decimal(text: &str) -> (valid: bool)
    ensures
        valid == is_decimal(text@),
{
    let len = text.unicode_len();
    let mut point: usize = 0;
    while point < len && is_digit(text.get_char(point))
        invariant
            point <= len,
            len == text@.len(),
            forall|i: int| 0 <= i < point ==> digit(#[trigger] text@[i]),
        decreases len - point,
    {
        point += 1;
    }
    if point == 0 || point >= len || text.get_char(point) != '.' {
        return false;
    }
    let mut i: usize = point + 1;
    while i < len && is_digit(text.get_char(i))
        invariant
            point < i <= len,
            len == text@.len(),
            forall|j: int| point < j < i ==> digit(#[trigger] text@[j]),
        decreases len - i,
    {
        i += 1;
    }
    if i < len || point + 1 >= len {
        return false;
    }
    true
}

/// A decimal number, kept as the literal it was written as.
#[derive(Debug, PartialEq)]
pub struct Decimal {
    text: String,
}

impl View for Decimal {
    type V = Seq<char>;

    closed spec fn view(&self) -> Seq<char> {
        self.text@
    }
}

impl Decimal {
    #[verifier::type_invariant]
    spec fn inv(&self) -> bool {
        is_decimal(self.text@)
    }

    /// The decimal that `text` denotes, where `text` is a decimal literal.
    pub fn parse(text: &str) -> (decimal: Option<Decimal>)
        ensures
            match decimal {
                Some(d) => is_decimal(text@) && d@ == text@,
                None => !is_decimal(text@),
            },
    {
        if check_decimal(text) {
            Some(decimal_of(text))
        } else {
            None
        }
    }

    /// The literal of this decimal.
    pub fn as_str(&self) -> (text: &str)
        ensures
            text@ == self@,
            is_decimal(text@),
    {
        proof {
            use_type_invariant(self);
        }
        self.text.as_str()
    }
}

impl Clone for Decimal {
    fn clone(&self) -> (copy: Decimal)
        ensures
            copy@ == self@,
    {
        proof {
            use_type_invariant(self);
        }
        Decimal { text: self.text.clone() }
    }
}

/// One `key = value` line of a configuration section.
#[derive(Debug, PartialEq, Clone)]
pub enum ConfigItem {
    StartingStep(Decimal),
    StepMultiplier(Decimal),
    StartingAngle(Decimal),
    AngleMultiplier(Decimal),
    StartingLineWidth(Decimal),
    LineWidthMultiplier(Decimal),
    BackgroundColor(String),
    PenColor(String),
}

/// A `ConfigItem` as specifications see it.
pub enum ConfigItemView {
    StartingStep(Seq<char>),
    StepMultiplier(Seq<char>),
    StartingAngle(Seq<char>),
    AngleMultiplier(Seq<char>),
    StartingLineWidth(Seq<char>),
    LineWidthMultiplier(Seq<char>),
    BackgroundColor(Seq<char>),
    PenColor(Seq<char>),
}

impl View for ConfigItem {
    type V = ConfigItemView;

    open spec fn view(&self) -> ConfigItemView {
        match self {
            ConfigItem::StartingStep(v) => ConfigItemView::StartingStep(v@),
            ConfigItem::StepMultiplier(v) => ConfigItemView::StepMultiplier(v@),
            ConfigItem::StartingAngle(v) => ConfigItemView::StartingAngle(v@),
            ConfigItem::AngleMultiplier(v) => ConfigItemView::AngleMultiplier(v@),
            ConfigItem::StartingLineWidth(v) => ConfigItemView::StartingLineWidth(v@),
            ConfigItem::LineWidthMultiplier(v) => ConfigItemView::LineWidthMultiplier(v@),
            ConfigItem::BackgroundColor(v) => ConfigItemView::BackgroundColor(v@),
            ConfigItem::PenColor(v) => ConfigItemView::PenColor(v@),
        }
    }
}

/// The rendering parameters.
#[derive(Debug, PartialEq, Clone)]
pub struct RendererConfig {
    pub starting_step: Decimal,
    pub step_multiplier: Decimal,
    pub starting_angle: Decimal,
    pub angle_multiplier: Decimal,
    pub starting_line_width: Decimal,
    pub line_width_multiplier: Decimal,
    pub background_color: String,
    pub pen_color: String,
}

/// A `RendererConfig` as specifications see it.
pub struct RendererConfigView {
    pub starting_step: Seq<char>,
    pub step_multiplier: Seq<char>,
    pub starting_angle: Seq<char>,
    pub angle_multiplier: Seq<char>,
    pub starting_line_width: Seq<char>,
    pub line_width_multiplier: Seq<char>,
    pub background_color: Seq<char>,
    pub pen_color: Seq<char>,
}

impl View for RendererConfig {
    type V = RendererConfigView;

    open spec fn view(&self) -> RendererConfigView {
        RendererConfigView {
            starting_step: self.starting_step@,
            step_multiplier: self.step_multiplier@,
            starting_angle: self.starting_angle@,
            angle_multiplier: self.angle_multiplier@,
            starting_line_width: self.starting_line_width@,
            line_width_multiplier: self.line_width_multiplier@,
            background_color: self.background_color@,
            pen_color: self.pen_color@,
        }
    }
}

/// The parameters of a configuration section without items.
pub open spec fn default_config() -> RendererConfigView {
    RendererConfigView {
        starting_step: "10.0"@,
        step_multiplier: "1.5"@,
        starting_angle: "45.0"@,
        angle_multiplier: "2.0"@,
        starting_line_width: "4.0"@,
        line_width_multiplier: "1.5"@,
        background_color: "white"@,
        pen_color: "black"@,
    }
}

/// `config` with the field that `item` names overwritten by the value of
/// `item`.
pub open spec fn with_item(config: RendererConfigView, item: ConfigItemView) -> RendererConfigView {
    match item {
        ConfigItemView::StartingStep(v) => RendererConfigView { starting_step: v, ..config },
        ConfigItemView::StepMultiplier(v) => RendererConfigView { step_multiplier: v, ..config },
        ConfigItemView::StartingAngle(v) => RendererConfigView { starting_angle: v, ..config },
        ConfigItemView::AngleMultiplier(v) => RendererConfigView { angle_multiplier: v, ..config },
        ConfigItemView::StartingLineWidth(v) => RendererConfigView {
            starting_line_width: v,
            ..config
        },
        ConfigItemView::LineWidthMultiplier(v) => RendererConfigView {
            line_width_multiplier: v,
            ..config
        },
        ConfigItemView::BackgroundColor(v) => RendererConfigView { background_color: v, ..config },
        ConfigItemView::PenColor(v) => RendererConfigView { pen_color: v, ..config },
    }
}

/// `config` with `items` applied in order, so that of two items for one
/// field the later one stands.
pub open spec fn with_items(
    config: RendererConfigView,
    items: Seq<ConfigItemView>,
) -> RendererConfigView
    decreases items.len(),
{
    if items.len() == 0 {
        config
    } else {
        with_item(with_items(config, items.drop_last()), items.last())
    }
}

/// The views of `items`.
pub open spec fn item_views(items: Seq<ConfigItem>) -> Seq<ConfigItemView> {
    items.map_values(|item: ConfigItem| item@)
}

/// The decimal that the decimal literal `text` denotes.
fn decimal_of(text: &str) -> (decimal: Decimal)
    requires
        is_decimal(text@),
    ensures
        decimal@ == text@,
{
    Decimal { text: text.to_owned() }
}

impl Default for RendererConfig {
    fn default() -> (config: RendererConfig)
        ensures
            config@ == default_config(),
    {
        proof {
            reveal_strlit("10.0");
            reveal_strlit("1.5");
            reveal_strlit("45.0");
            reveal_strlit("2.0");
            reveal_strlit("4.0");
            assert("10.0"@[2] == '.');
            assert("1.5"@[1] == '.');
            assert("45.0"@[2] == '.');
            assert("2.0"@[1] == '.');
            assert("4.0"@[1] == '.');
        }
        RendererConfig {
            starting_step: decimal_of("10.0"),
            step_multiplier: decimal_of("1.5"),
            starting_angle: decimal_of("45.0"),
            angle_multiplier: decimal_of("2.0"),
            starting_line_width: decimal_of("4.0"),
            line_width_multiplier: decimal_of("1.5"),
            background_color: "white".to_owned(),
            pen_color: "black".to_owned(),
        }
    }
}

impl RendererConfig {
    /// Overwrites the field that `item` names with the value of `item`.
    pub fn set(&mut self, item: ConfigItem)
        ensures
            final(self)@ == with_item(old(self)@, item@),
    {
        match item {
            ConfigItem::StartingStep(value) => self.starting_step = value,
            ConfigItem::StepMultiplier(value) => self.step_multiplier = value,
            ConfigItem::StartingAngle(value) => self.starting_angle = value,
            ConfigItem::AngleMultiplier(value) => self.angle_multiplier = value,
            ConfigItem::StartingLineWidth(value) => self.starting_line_width = value,
            ConfigItem::LineWidthMultiplier(value) => self.line_width_multiplier = value,
            ConfigItem::BackgroundColor(value) => self.background_color = value,
            ConfigItem::PenColor(value) => self.pen_color = value,
        }
    }

    /// The defaults with `items` applied in order.  Without items these are
    /// the defaults themselves.
    pub fn from_items(items: Vec<ConfigItem>) -> (config: RendererConfig)
        ensures
            config@ == with_items(default_config(), item_views(items@)),
            items@.len() == 0 ==> config@ == default_config(),
    {
        let mut config = RendererConfig::default();
        let ghost all = item_views(items@);
        for item in it: items.into_iter()
            invariant
                all == item_views(it.seq()),
                config@ == with_items(default_config(), all.take(it.index() as int)),
        {
            proof {
                let next = all.take(it.index() + 1);
                assert(next.drop_last() == all.take(it.index() as int));
            }
            config.set(item);
        }
        assert(all.take(all.len() as int) == all);
        config
    }
}

} // verus!
