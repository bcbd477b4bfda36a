//! A calendar of dated events that mirrors remote calendars.
pub mod accounts;
pub mod agenda;
pub mod agenda_laws;
pub mod caldav;
pub mod calendar;
pub mod config;
pub mod date;
pub mod display;
pub mod event_laws;
pub mod fetch_laws;
pub mod google;
pub mod http;
pub mod ics;
pub mod ics_laws;
pub mod json;
pub mod mirror;
pub mod mirror_laws;
pub mod month;
pub mod order;
pub mod parse_laws;
pub mod pass_laws;
pub mod patch_laws;
pub mod paths;
pub mod push;
pub mod record;
pub mod remote;
pub mod run;
pub mod setup_laws;
pub mod sync;
pub mod sync_laws;
pub mod text;
pub mod uid;
pub mod uid_map;
pub mod url;
pub mod vevent;
pub mod when;
pub mod window_laws;
pub mod write_laws;
pub mod xml;
