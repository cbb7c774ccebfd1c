//! Source presets: the named shortcuts a user can pick instead of, or
//! besides, explicit source roots, expanded in a fixed order.

use vstd::prelude::*;

use crate::text::views;

verus! {

/// The media preset: the camera and pictures folders.
pub open spec fn media_preset_spec() -> Seq<Seq<char>> {
    seq!["/sdcard/DCIM"@, "/sdcard/Pictures"@]
}

/// The messaging-app media preset: its audio, image, video, voice-note,
/// video-note and document folders.
pub open spec fn whatsapp_media_preset_spec() -> Seq<Seq<char>> {
    seq![
        "/sdcard/Android/media/com.whatsapp/WhatsApp/Media/WhatsApp Audio"@,
        "/sdcard/Android/media/com.whatsapp/WhatsApp/Media/WhatsApp Images"@,
        "/sdcard/Android/media/com.whatsapp/WhatsApp/Media/WhatsApp Video"@,
        "/sdcard/Android/media/com.whatsapp/WhatsApp/Media/WhatsApp Voice Notes"@,
        "/sdcard/Android/media/com.whatsapp/WhatsApp/Media/WhatsApp Video Notes"@,
        "/sdcard/Android/media/com.whatsapp/WhatsApp/Media/WhatsApp Documents"@,
    ]
}

/// The messaging-app backups preset: its backup and database folders.
pub open spec fn whatsapp_backups_preset_spec() -> Seq<Seq<char>> {
    seq![
        "/sdcard/Android/media/com.whatsapp/WhatsApp/Backups"@,
        "/sdcard/Android/media/com.whatsapp/WhatsApp/Databases"@,
    ]
}

fn push_path(v: &mut Vec<String>, s: &str)
    ensures
        views(final(v)@) == views(old(v)@).push(s@),
{
    let t = s.to_owned();
    proof {
        assert(views(v@.push(t)) =~= views(v@).push(t@));
    }
    v.push(t);
}

/// Appends the selected presets, in a fixed order, to the explicitly
/// given source roots.
pub fn expand_sources(
    sources: Vec<String>,
    media_preset: bool,
    whatsapp_preset: bool,
    whatsapp_backups_preset: bool,
) -> (r: Vec<String>)
    ensures
        views(r@) == views(sources@) + (if media_preset {
            media_preset_spec()
        } else {
            Seq::<Seq<char>>::empty()
        }) + (if whatsapp_preset {
            whatsapp_media_preset_spec()
        } else {
            Seq::<Seq<char>>::empty()
        }) + (if whatsapp_backups_preset {
            whatsapp_backups_preset_spec()
        } else {
            Seq::<Seq<char>>::empty()
        }),
{
    let mut r = sources;
    if media_preset {
        push_path(&mut r, "/sdcard/DCIM");
        push_path(&mut r, "/sdcard/Pictures");
    }
    if whatsapp_preset {
        push_path(&mut r, "/sdcard/Android/media/com.whatsapp/WhatsApp/Media/WhatsApp Audio");
        push_path(&mut r, "/sdcard/Android/media/com.whatsapp/WhatsApp/Media/WhatsApp Images");
        push_path(&mut r, "/sdcard/Android/media/com.whatsapp/WhatsApp/Media/WhatsApp Video");
        push_path(&mut r, "/sdcard/Android/media/com.whatsapp/WhatsApp/Media/WhatsApp Voice Notes");
        push_path(&mut r, "/sdcard/Android/media/com.whatsapp/WhatsApp/Media/WhatsApp Video Notes");
        push_path(&mut r, "/sdcard/Android/media/com.whatsapp/WhatsApp/Media/WhatsApp Documents");
    }
    if whatsapp_backups_preset {
        push_path(&mut r, "/sdcard/Android/media/com.whatsapp/WhatsApp/Backups");
        push_path(&mut r, "/sdcard/Android/media/com.whatsapp/WhatsApp/Databases");
    }
    proof {
        assert(views(r@) =~= views(sources@) + (if media_preset {
            media_preset_spec()
        } else {
            Seq::<Seq<char>>::empty()
        }) + (if whatsapp_preset {
            whatsapp_media_preset_spec()
        } else {
            Seq::<Seq<char>>::empty()
        }) + (if whatsapp_backups_preset {
            whatsapp_backups_preset_spec()
        } else {
            Seq::<Seq<char>>::empty()
        }));
    }
    r
}

} // verus!
