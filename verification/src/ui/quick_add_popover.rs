//! Adding an event by its title.
use vstd::prelude::*;

use crate::date;
use crate::date::Date;
use crate::model::Uuid;
use crate::text;
use crate::ui::names;

verus! {

// ---------------------------------------------------------------------------------------------
// The heading
// ---------------------------------------------------------------------------------------------

/// The heading over a new event on a day.
pub open spec fn heading(day: int, today: int) -> Seq<char> {
    if day == today {
        "New Event Today"@
    } else if day == today + 1 {
        "New Event Tomorrow"@
    } else if day == today - 1 {
        "New Event Yesterday"@
    } else if today + 2 <= day <= today + 6 {
        "New Event "@ + names::weekday_word(date::weekday_of(day))
    } else {
        let (_, month, day_of_month) = date::civil_of(day);
        "New Event on "@ + names::month_word(month) + " "@ + text::decimal(day_of_month as nat)
    }
}

/// The heading over a new event on a day: today, its neighbours and the rest of the coming week are
/// named, any other day is given by its month and day.
pub fn get_date_string_for_day(date: Date, today: Date) -> (r: String)
    ensures
        r@ == heading(date@, today@),
{
    let ahead: i64 = date.days() as i64 - today.days() as i64;
    if ahead == 0 {
        String::from_str("New Event Today")
    } else if ahead == 1 {
        String::from_str("New Event Tomorrow")
    } else if ahead == -1 {
        String::from_str("New Event Yesterday")
    } else if 2 <= ahead && ahead <= 6 {
        text::joined("New Event ", names::weekday_name(&date))
    } else {
        let (_, month, day): (i32, u32, u32) = date.ymd();
        let mut out = text::joined("New Event on ", names::month_name(month));
        out.append(" ");
        out.append(text::decimal_text(day as u64).as_str());
        assert(out@ =~= heading(date@, today@));
        out
    }
}

// ---------------------------------------------------------------------------------------------
// The form
// ---------------------------------------------------------------------------------------------

/// What has been entered.
#[derive(Debug)]
pub struct QuickAdd {
    pub title: String,
    pub calendar_id: Option<Uuid>,
    pub date: Option<Date>,
}

/// What an entry leads to.
#[derive(Debug)]
pub enum QuickAddAction {
    /// Save an event with a title, in a calendar, on a day.
    Save { title: String, calendar_id: Uuid, date: Date },
    EditDetails,
    Nothing,
}

/// The values of a [`QuickAddAction`].
pub enum QuickAddView {
    Save { title: Seq<char>, calendar_id: Uuid, date: Date },
    EditDetails,
    Nothing,
}

impl View for QuickAddAction {
    type V = QuickAddView;

    open spec fn view(&self) -> QuickAddView {
        match *self {
            QuickAddAction::Save { title, calendar_id, date } => QuickAddView::Save {
                title: title@,
                calendar_id,
                date,
            },
            QuickAddAction::EditDetails => QuickAddView::EditDetails,
            QuickAddAction::Nothing => QuickAddView::Nothing,
        }
    }
}

/// What there is to save: an event with a title, a calendar and a day.
pub open spec fn to_save(entered: QuickAdd) -> Option<QuickAddView> {
    let title = text::trimmed(entered.title@);
    match (entered.calendar_id, entered.date) {
        (Some(calendar_id), Some(date)) => if title.len() > 0 {
            Some(QuickAddView::Save { title, calendar_id, date })
        } else {
            None
        },
        _ => None,
    }
}

impl QuickAdd {
    /// Whether the event can be saved: it has a title and a calendar.
    pub fn can_save(&self) -> (r: bool)
        ensures
            r == (text::trimmed(self.title@).len() > 0 && self.calendar_id is Some),
    {
        !self.lacks_title() && self.calendar_id.is_some()
    }

    /// Whether the title is marked as missing once it has been changed.
    pub fn lacks_title(&self) -> (r: bool)
        ensures
            r == (text::trimmed(self.title@).len() == 0),
    {
        let title = text::chars_of(self.title.as_str());
        text::trim_chars(&title).len() == 0
    }

    /// The save button was pressed.
    pub fn save(&self) -> (r: QuickAddAction)
        ensures
            r@ == (match to_save(*self) {
                Some(save) => save,
                None => QuickAddView::Nothing,
            }),
    {
        if self.lacks_title() {
            return QuickAddAction::Nothing;
        }
        match (self.calendar_id, self.date) {
            (Some(calendar_id), Some(date)) => QuickAddAction::Save {
                title: text::trim(self.title.as_str()),
                calendar_id,
                date,
            },
            _ => QuickAddAction::Nothing,
        }
    }

    /// The title was confirmed: save, or go to the details where something is missing.
    pub fn confirm(&self) -> (r: QuickAddAction)
        ensures
            r@ == (match to_save(*self) {
                Some(save) => save,
                None => QuickAddView::EditDetails,
            }),
    {
        match self.save() {
            QuickAddAction::Nothing => QuickAddAction::EditDetails,
            action => action,
        }
    }

    /// The form was closed: its title and its day are forgotten, its calendar is kept.
    pub fn closed(&self) -> (r: QuickAdd)
        ensures
            r.title@ == Seq::<char>::empty(),
            r.calendar_id == self.calendar_id,
            r.date is None,
    {
        QuickAdd { title: String::new(), calendar_id: self.calendar_id, date: None }
    }
}

/// The heading says how the day lies to today, names the day of the week within the next week, and
/// names the date otherwise.
pub proof fn law_headings_of_days(today: int, year: int, month: int, day: int)
    requires
        date::is_civil(year, month, day),
    ensures
        heading(today, today) == "New Event Today"@,
        heading(today + 1, today) == "New Event Tomorrow"@,
        heading(today - 1, today) == "New Event Yesterday"@,
        ({
            let number = date::day_number(year, month, day);
            &&& 2 <= number - today < 7 ==> heading(number, today) == "New Event "@ + names::weekday_word(
                date::weekday_of(number),
            )
            &&& number - today >= 7 || number - today < -1 ==> heading(number, today) == "New Event on "@
                + names::month_word(month) + " "@ + text::decimal(day as nat)
        }),
{
    date::lemma_civil_of(year, month, day);
}

/// An event is saved exactly where it has a title that is not blank, a calendar and a day; it is saved
/// with these.
pub proof fn law_what_is_saved(title: String, calendar_id: Option<Uuid>, day: Option<Date>)
    ensures
        ({
            let saved = to_save(QuickAdd { title, calendar_id, date: day });
            &&& saved is Some <==> text::trimmed(title@).len() > 0 && calendar_id is Some && day is Some
            &&& saved is Some ==> saved == Some(
                QuickAddView::Save {
                    title: text::trimmed(title@),
                    calendar_id: calendar_id->0,
                    date: day->0,
                },
            )
        }),
{
}

} // verus!
